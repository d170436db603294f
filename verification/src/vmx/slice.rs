//! Entropy coding of one plane within one 16-line slice.
//!
//! Each plane of a slice is split into 8x8 blocks, left to right, top row of
//! blocks first, across the whole (8-aligned) stride. Per block:
//!
//! * the DC coefficient, optionally reduced by `dc_shift`, is coded as the
//!   difference to the previous block's DC in the **DC stream**: `11` for no
//!   change, otherwise a value code of the mapped difference;
//! * the 63 AC coefficients, in zig-zag order, go to the **AC stream**, which
//!   treats the plane as one long coefficient sequence (the DC slot of every
//!   block counts as a zero): each maximal run of zeros is a run code, each
//!   non-zero coefficient a value code. Runs span block boundaries.
//!
//! Both streams are padded with zero bits to a byte boundary after each plane.

use super::bits::{
    bits_of, code_of, coefficient_of, from_code, lemma_bit_halve, lemma_tail, pad8, run_code, stream_bit, symbol_at,
    tail_at, to_code, value_code, wrap16, AcSymbol, BitReader, BitWriter, Corrupt,
};
use super::dct::{
    block_fits, broadcast_dc8, fdct_quant_zig, flat_sample, forward_zig, grid, idct, inverse,
    stored_sample, with_block, words, Depth,
};
use super::lanes::{cut, down16, srai16};
use vstd::arithmetic::power2::pow2;
use vstd::prelude::*;

verus! {

/// Widest plane, in samples.
pub const MAX_STRIDE: usize = 0x10_0000;

/// The value that the transform sees of a stored sample: 10-bit samples drop
/// their 6 low bits.
pub open spec fn lane(s: u16, depth: Depth) -> int {
    match depth {
        Depth::Eight => s as int,
        Depth::Ten => s as int / 64,
    }
}

/// Level shift for plane `p`: luma and alpha are centred, chroma is not.
pub open spec fn level_shift_of(p: int, depth: Depth) -> int {
    if p == 0 || p == 3 {
        match depth {
            Depth::Eight => 128,
            Depth::Ten => 512,
        }
    } else {
        0
    }
}

/// Level shift for plane `p`: luma and alpha are centred, chroma is not.
pub fn level_shift(p: usize, depth: Depth) -> (r: i16)
    ensures
        r == level_shift_of(p as int, depth),
{
    if p == 0 || p == 3 {
        match depth {
            Depth::Eight => 128,
            Depth::Ten => 512,
        }
    } else {
        0
    }
}

// ---------------------------------------------------------------------------
// Blocks
// ---------------------------------------------------------------------------

/// Number of blocks of one plane of a slice.
pub open spec fn block_count(stride: int) -> int {
    2 * (stride / 8)
}

/// First row of block `k` of the slice that starts at row `top`.
pub open spec fn block_row(top: int, stride: int, k: int) -> int {
    if k < stride / 8 {
        top
    } else {
        top + 8
    }
}

/// First column of block `k`.
pub open spec fn block_column(stride: int, k: int) -> int {
    if k < stride / 8 {
        8 * k
    } else {
        8 * (k - stride / 8)
    }
}

/// The transform's input for the block at (`y0`, `x0`).
pub open spec fn block_lanes(rows: Seq<Seq<u16>>, y0: int, x0: int, depth: Depth) -> Seq<Seq<int>> {
    Seq::new(8, |y: int| Seq::new(8, |x: int| lane(rows[y0 + y][x0 + x], depth)))
}

/// The settings that one plane is coded with.
pub struct PlaneCoding {
    /// Sample precision.
    pub depth: Depth,
    /// Level shift.
    pub shift: int,
    /// DC precision reduction.
    pub dc_shift: nat,
}

/// The quantised coefficients of the plane's blocks.
pub open spec fn plane_blocks(
    rows: Seq<Seq<u16>>,
    top: int,
    stride: int,
    c: PlaneCoding,
    matrix: Seq<u16>,
) -> Seq<Seq<i16>> {
    Seq::new(
        block_count(stride) as nat,
        |k: int|
            forward_zig(
                block_lanes(rows, block_row(top, stride, k), block_column(stride, k), c.depth),
                c.depth,
                matrix,
                -c.shift,
            ),
    )
}

// ---------------------------------------------------------------------------
// The coded streams
// ---------------------------------------------------------------------------

/// Half a unit of the reduced DC precision.
pub open spec fn dc_round(dc_shift: nat) -> int {
    if dc_shift > 0 {
        pow2((dc_shift - 1) as nat) as int
    } else {
        0
    }
}

/// A DC coefficient at reduced precision.
pub open spec fn reduced_dc(v: i16, dc_shift: nat) -> int {
    down16(wrap16(v + dc_round(dc_shift)), dc_shift)
}

/// The reduced DC values of some blocks.
pub open spec fn dc_values(blocks: Seq<Seq<i16>>, dc_shift: nat) -> Seq<int> {
    Seq::new(blocks.len(), |k: int| reduced_dc(blocks[k][0], dc_shift))
}

/// The value before the next one.
pub open spec fn previous(s: Seq<int>) -> int {
    if s.len() == 0 {
        0
    } else {
        s.last()
    }
}

/// The code of one DC difference.
pub open spec fn dc_code(diff: int) -> Seq<bool> {
    if diff == 0 {
        seq![true, true]
    } else {
        value_code(code_of(diff) as u64)
    }
}

/// The DC stream of some values: the code of each difference in turn.
pub open spec fn dc_bits(values: Seq<int>) -> Seq<bool>
    decreases values.len(),
{
    if values.len() == 0 {
        Seq::empty()
    } else {
        let before = values.drop_last();
        dc_bits(before) + dc_code(values.last() - previous(before))
    }
}

/// The coefficient sequence of some blocks, a zero in every DC slot.
pub open spec fn ac_words(blocks: Seq<Seq<i16>>) -> Seq<int> {
    Seq::new(
        64 * blocks.len(),
        |i: int|
            if i % 64 == 0 {
                0
            } else {
                blocks[i / 64][i % 64] as int
            },
    )
}

/// The codes for `s` but for its trailing zeros, and their number.
pub open spec fn ac_prefix(s: Seq<int>) -> (Seq<bool>, nat)
    decreases s.len(),
{
    if s.len() == 0 {
        (Seq::empty(), 0)
    } else {
        let (bits, run) = ac_prefix(s.drop_last());
        if s.last() == 0 {
            (bits, run + 1)
        } else {
            (bits + run_code(run as u64) + value_code(code_of(s.last()) as u64), 0)
        }
    }
}

/// The AC stream of a coefficient sequence: a run code for each maximal run
/// of zeros, a value code for each other coefficient.
pub open spec fn ac_bits(s: Seq<int>) -> Seq<bool> {
    let (bits, run) = ac_prefix(s);
    bits + run_code(run as u64)
}

/// Widens the samples of one block.
fn load_block(rows: &Vec<Vec<u16>>, y0: usize, x0: usize, depth: Depth) -> (r: [[i16; 8]; 8])
    requires
        block_fits(grid(rows@), y0 as int, x0 as int),
        depth == Depth::Eight ==> forall|y: int, x: int|
            y0 <= y < y0 + 8 && x0 <= x < x0 + 8 ==> #[trigger] grid(rows@)[y][x] <= 255,
    ensures
        words(r@) == block_lanes(grid(rows@), y0 as int, x0 as int, depth),
{
    let mut r: [[i16; 8]; 8] = [[0i16; 8]; 8];
    let mut y: usize = 0;
    assert(rows.len() >= y0 + 8);
    while y < 8
        invariant
            y <= 8,
            rows.len() >= y0 + 8,
            block_fits(grid(rows@), y0 as int, x0 as int),
            depth == Depth::Eight ==> forall|y: int, x: int|
                y0 <= y < y0 + 8 && x0 <= x < x0 + 8 ==> #[trigger] grid(rows@)[y][x] <= 255,
            forall|j: int, i: int|
                0 <= j < y && 0 <= i < 8 ==> #[trigger] r@[j]@[i] == lane(
                    grid(rows@)[y0 + j][x0 + i],
                    depth,
                ),
        decreases 8 - y,
    {
        let row: &Vec<u16> = &rows[y0 + y];
        assert(row@ == grid(rows@)[y0 + y]);
        assert(row.len() >= x0 + 8);
        let mut x: usize = 0;
        while x < 8
            invariant
                x <= 8,
                y < 8,
                row@ == grid(rows@)[y0 + y],
                row.len() >= x0 + 8,
                depth == Depth::Eight ==> forall|y: int, x: int|
                    y0 <= y < y0 + 8 && x0 <= x < x0 + 8 ==> #[trigger] grid(rows@)[y][x] <= 255,
                forall|j: int, i: int|
                    0 <= i < 8 && (0 <= j < y || j == y && i < x) ==> #[trigger] r@[j]@[i] == lane(
                        grid(rows@)[y0 + j][x0 + i],
                        depth,
                    ),
            decreases 8 - x,
        {
            let s: u16 = row[x0 + x];
            assert(s == grid(rows@)[y0 + y][x0 + x]);
            r[y][x] = match depth {
                Depth::Eight => s as i16,
                Depth::Ten => (s / 64) as i16,
            };
            x = x + 1;
        }
        y = y + 1;
    }
    assert(words(r@) =~~= block_lanes(grid(rows@), y0 as int, x0 as int, depth));
    r
}

/// Appending a block appends its 64 words to the coefficient sequence.
proof fn lemma_ac_words_push(blocks: Seq<Seq<i16>>, b: Seq<i16>, n: int)
    requires
        b.len() == 64,
        0 <= n <= 64,
    ensures
        ac_words(blocks.push(b)).take(64 * blocks.len() + n) == ac_words(blocks) + Seq::new(
            n as nat,
            |i: int|
                if i == 0 {
                    0
                } else {
                    b[i] as int
                },
        ),
{
    let l = ac_words(blocks.push(b)).take(64 * blocks.len() + n);
    let r = ac_words(blocks) + Seq::new(
        n as nat,
        |i: int|
            if i == 0 {
                0
            } else {
                b[i] as int
            },
    );
    assert forall|i: int| 0 <= i < l.len() implies l[i] == r[i] by {
        if i >= 64 * blocks.len() {
            let j = i - 64 * blocks.len();
            assert(i / 64 == blocks.len() && i % 64 == j);
        } else {
            assert(0 <= i / 64 < blocks.len());
        }
    }
    assert(l =~= r);
}

/// Codes the AC coefficients of one block; `run` zeros are pending.
fn put_block_ac(
    zz: &[i16; 64],
    run: u32,
    ac: &mut BitWriter,
    Ghost(base): Ghost<Seq<bool>>,
    Ghost(blocks): Ghost<Seq<Seq<i16>>>,
) -> (r: u32)
    requires
        old(ac).wf(),
        old(ac)@ == base + ac_prefix(ac_words(blocks)).0,
        run == ac_prefix(ac_words(blocks)).1,
        run < 0x1000_0000,
    ensures
        final(ac).wf(),
        final(ac)@ == base + ac_prefix(ac_words(blocks.push(zz@))).0,
        r == ac_prefix(ac_words(blocks.push(zz@))).1,
        r <= run + 64,
{
    let ghost all = ac_words(blocks.push(zz@));
    let ghost n0: int = 64 * blocks.len() as int;
    let ghost run0 = run;
    let mut run: u32 = run + 1;
    proof {
        lemma_ac_words_push(blocks, zz@, 0);
        lemma_ac_words_push(blocks, zz@, 1);
        assert(all.take(n0) =~= ac_words(blocks));
        assert(all.take(n0 + 1).drop_last() =~= all.take(n0));
        assert(all.take(n0 + 1).last() == 0);
    }
    let mut i: usize = 1;
    while i < 64
        invariant
            1 <= i <= 64,
            ac.wf(),
            all == ac_words(blocks.push(zz@)),
            n0 == 64 * blocks.len(),
            run0 < 0x1000_0000,
            run <= run0 + i,
            run == ac_prefix(all.take(n0 + i)).1,
            ac@ == base + ac_prefix(all.take(n0 + i)).0,
        decreases 64 - i,
    {
        let ghost s1 = all.take(n0 + i + 1);
        proof {
            assert(s1.drop_last() =~= all.take(n0 + i));
            assert((n0 + i) / 64 == blocks.len() && (n0 + i) % 64 == i as int);
            assert(s1.last() == zz@[i as int] as int);
        }
        let v: i16 = zz[i];
        if v == 0 {
            run = run + 1;
        } else {
            let code: u32 = to_code(v as i32);
            ac.put_run_value(run, code);
            assert(ac@ =~= base + ac_prefix(s1).0);
            run = 0;
        }
        i = i + 1;
    }
    assert(all.take(n0 + 64) =~= all);
    run
}

/// Codes one DC value after `previous(values)`.
fn put_dc(diff: i32, dc: &mut BitWriter)
    requires
        old(dc).wf(),
        -0x2_0000 <= diff <= 0x2_0000,
    ensures
        final(dc).wf(),
        final(dc)@ == old(dc)@ + dc_code(diff as int),
{
    if diff == 0 {
        dc.put(3, 2);
        assert(bits_of(3, 2) =~= seq![true, true]) by {
            lemma_bit_halve(3, 0);
            lemma_bit_halve(1, 0);
        }
    } else {
        dc.put_value(to_code(diff));
    }
}

/// The plane holds whole blocks of samples that fit its precision.
pub open spec fn plane_fits(rows: Seq<Seq<u16>>, top: int, stride: int, depth: Depth) -> bool {
    &&& 0 < stride <= MAX_STRIDE
    &&& stride % 8 == 0
    &&& 0 <= top
    &&& top + 16 <= rows.len()
    &&& forall|y: int| top <= y < top + 16 ==> (#[trigger] rows[y]).len() == stride
    &&& depth == Depth::Eight ==> forall|y: int, x: int|
        top <= y < top + 16 && 0 <= x < stride ==> #[trigger] rows[y][x] <= 255
}

/// Encodes one plane of one slice, whose first row is `top`.
pub fn encode_plane(
    rows: &Vec<Vec<u16>>,
    top: usize,
    stride: usize,
    depth: Depth,
    shift: i16,
    matrix: &[u16; 192],
    dc_shift: u32,
    dc: &mut BitWriter,
    ac: &mut BitWriter,
)
    requires
        plane_fits(grid(rows@), top as int, stride as int, depth),
        shift > -32768,
        dc_shift <= 15,
        old(dc).wf(),
        old(ac).wf(),
    ensures
        final(dc).wf(),
        final(ac).wf(),
        ({
            let c = PlaneCoding { depth, shift: shift as int, dc_shift: dc_shift as nat };
            let blocks = plane_blocks(grid(rows@), top as int, stride as int, c, matrix@);
            &&& final(dc)@ == pad8(old(dc)@ + dc_bits(dc_values(blocks, dc_shift as nat)))
            &&& final(ac)@ == pad8(old(ac)@ + ac_bits(ac_words(blocks)))
        }),
{
    let ghost c = PlaneCoding { depth, shift: shift as int, dc_shift: dc_shift as nat };
    let ghost blocks = plane_blocks(grid(rows@), top as int, stride as int, c, matrix@);
    let ghost values = dc_values(blocks, dc_shift as nat);
    let ghost dc0 = dc@;
    let ghost ac0 = ac@;
    proof {
        vstd::arithmetic::power2::lemma2_to64();
    }
    let round: i16 = dc_rounding(dc_shift);
    let count: usize = stride / 8;
    let mut pred: i16 = 0;
    let mut run: u32 = 0;
    let mut k: usize = 0;
    proof {
        assert(blocks.take(0) =~= Seq::empty());
        assert(ac_words(blocks.take(0)) =~= Seq::empty());
        assert(values.take(0) =~= Seq::empty());
        assert(dc@ =~= dc0 + dc_bits(values.take(0)));
        assert(ac@ =~= ac0 + ac_prefix(ac_words(blocks.take(0))).0);
    }
    while k < 2 * count
        invariant
            k <= 2 * count,
            count == stride / 8,
            top + 16 <= rows.len(),
            plane_fits(grid(rows@), top as int, stride as int, depth),
            shift > -32768,
            dc_shift <= 15,
            round == dc_round(dc_shift as nat),
            c == (PlaneCoding { depth, shift: shift as int, dc_shift: dc_shift as nat }),
            blocks == plane_blocks(grid(rows@), top as int, stride as int, c, matrix@),
            values == dc_values(blocks, dc_shift as nat),
            dc.wf(),
            ac.wf(),
            pred == previous(values.take(k as int)),
            run == ac_prefix(ac_words(blocks.take(k as int))).1,
            run <= 64 * k,
            dc@ == dc0 + dc_bits(values.take(k as int)),
            ac@ == ac0 + ac_prefix(ac_words(blocks.take(k as int))).0,
        decreases 2 * count - k,
    {
        let y0: usize = if k < count {
            top
        } else {
            top + 8
        };
        let x0: usize = if k < count {
            8 * k
        } else {
            8 * (k - count)
        };
        assert(y0 == block_row(top as int, stride as int, k as int));
        assert(x0 == block_column(stride as int, k as int));
        assert(x0 + 8 <= stride);
        let block: [[i16; 8]; 8] = load_block(rows, y0, x0, depth);
        let zz: [i16; 64] = fdct_quant_zig(&block, depth, matrix, -shift);
        assert(zz@ == blocks[k as int]);

        let d: i16 = srai16(cut(zz[0] as i32 + round as i32), dc_shift);
        assert(d == values[k as int]);
        put_dc(d as i32 - pred as i32, dc);
        proof {
            assert(values.take(k + 1).drop_last() =~= values.take(k as int));
            assert(dc@ =~= dc0 + dc_bits(values.take(k + 1)));
        }
        pred = d;

        run = put_block_ac(&zz, run, ac, Ghost(ac0), Ghost(blocks.take(k as int)));
        assert(blocks.take(k as int).push(zz@) =~= blocks.take(k + 1));
        k = k + 1;
    }
    proof {
        assert(blocks.take(k as int) =~= blocks);
        assert(values.take(k as int) =~= values);
    }
    ac.put_run(run);
    assert(ac@ =~= ac0 + ac_bits(ac_words(blocks)));
    ac.align();
    dc.align();
}

/// Half a unit of the reduced DC precision.
fn dc_rounding(dc_shift: u32) -> (r: i16)
    requires
        dc_shift <= 15,
    ensures
        r == dc_round(dc_shift as nat),
{
    if dc_shift == 0 {
        return 0;
    }
    let n: u16 = (dc_shift - 1) as u16;
    proof {
        vstd::arithmetic::power2::lemma2_to64();
        if n < 14 {
            vstd::arithmetic::power2::lemma_pow2_strictly_increases(n as nat, 14);
        }
        vstd::bits::lemma_u16_shl_is_mul(1, n);
    }
    (1u16 << n) as i16
}

// ---------------------------------------------------------------------------
// Reading the streams back
// ---------------------------------------------------------------------------

/// What an AC symbol can be.
pub proof fn lemma_symbol(data: Seq<u8>, pos: int)
    ensures
        match symbol_at(data, pos) {
            Some((AcSymbol::Run(n), p)) => 1 <= n < 0x0100_0000_0000_0000 && pos < p <= pos + 114,
            Some((AcSymbol::Value(v), p)) => 2 <= v && pos < p <= pos + 114,
            None => true,
        },
{
    lemma_tail(data, pos + 1);
    lemma_tail(data, pos + 2);
}

/// Reads the coefficients of one block, `pending` zeros first: the block, the
/// position after it and the zeros that reach into the next one.
pub open spec fn ac_block(data: Seq<u8>, pos: int, pending: nat, block: Seq<i16>) -> Option<
    (Seq<i16>, int, nat),
>
    decreases
            if pending < 64 {
                64 - pending
            } else {
                0
            },
{
    if pending >= 64 {
        Some((block, pos, (pending - 64) as nat))
    } else {
        proof {
            lemma_symbol(data, pos);
        }
        match symbol_at(data, pos) {
            None => None,
            Some((AcSymbol::Run(n), p)) => ac_block(data, p, pending + n as nat, block),
            Some((AcSymbol::Value(v), p)) => ac_block(
                data,
                p,
                pending + 1,
                block.update(pending as int, coefficient_of(v as nat) as i16),
            ),
        }
    }
}

/// Reads one DC difference: `None` in the pair for no change, else its code.
pub open spec fn dc_at(data: Seq<u8>, pos: int) -> Option<(Option<u64>, int)> {
    if stream_bit(data, pos) {
        Some((None, pos + 2))
    } else {
        match tail_at(data, pos + 1) {
            Some((v, p)) => Some((Some(v), p)),
            None => None,
        }
    }
}

/// A DC difference at full precision.
pub open spec fn dc_step(code: u64, dc_shift: nat) -> int {
    wrap16(coefficient_of(code as nat) * pow2(dc_shift) as int)
}

/// How far a plane has been read.
pub struct PlaneState {
    /// The blocks, in zig-zag order.
    pub blocks: Seq<Seq<i16>>,
    /// Whether each block had AC symbols of its own.
    pub coded: Seq<bool>,
    /// The last DC.
    pub pred: int,
    /// Zeros that reach into the next block.
    pub pending: nat,
    /// Position in the DC stream.
    pub dc: int,
    /// Position in the AC stream.
    pub ac: int,
}

/// An empty block.
pub open spec fn zero_block() -> Seq<i16> {
    Seq::new(64, |i: int| 0i16)
}

/// Reads one more block.
pub open spec fn next_block(dcd: Seq<u8>, acd: Seq<u8>, dc_shift: nat, st: PlaneState) -> Option<
    PlaneState,
> {
    match (ac_block(acd, st.ac, st.pending, zero_block()), dc_at(dcd, st.dc)) {
        (Some((b, ac, pending)), Some((code, dc))) => {
            let base = match code {
                None => b[0] as int,
                Some(v) => dc_step(v, dc_shift),
            };
            let d = wrap16(base + st.pred);
            Some(
                PlaneState {
                    blocks: st.blocks.push(b.update(0, d as i16)),
                    coded: st.coded.push(st.pending < 64),
                    pred: d,
                    pending,
                    dc,
                    ac,
                },
            )
        },
        _ => None,
    }
}

/// Reads `n` blocks of a plane whose streams start at `dc0` and `ac0`.
pub open spec fn read_blocks(
    dcd: Seq<u8>,
    acd: Seq<u8>,
    dc0: int,
    ac0: int,
    dc_shift: nat,
    n: nat,
) -> Option<PlaneState>
    decreases n,
{
    if n == 0 {
        Some(
            PlaneState {
                blocks: Seq::empty(),
                coded: Seq::empty(),
                pred: 0,
                pending: 0,
                dc: dc0,
                ac: ac0,
            },
        )
    } else {
        match read_blocks(dcd, acd, dc0, ac0, dc_shift, (n - 1) as nat) {
            Some(st) => next_block(dcd, acd, dc_shift, st),
            None => None,
        }
    }
}

/// Sample (`y`, `x`) of a block that was read. An 8-bit block without AC
/// symbols is filled with its DC value.
pub open spec fn block_sample(
    block: Seq<i16>,
    coded: bool,
    c: PlaneCoding,
    matrix: Seq<u16>,
    y: int,
    x: int,
) -> int {
    if c.depth == Depth::Eight && !coded {
        flat_sample(block[0] as int, c.shift)
    } else {
        stored_sample(inverse(block, c.depth, matrix, c.shift, y, x), c.depth)
    }
}

/// The block that holds sample (`y`, `x`).
pub open spec fn block_index(top: int, stride: int, y: int, x: int) -> int {
    if y < top + 8 {
        x / 8
    } else {
        stride / 8 + x / 8
    }
}

/// `rows` with the slice's samples taken from the blocks read so far.
pub open spec fn painted(
    rows: Seq<Seq<u16>>,
    top: int,
    stride: int,
    c: PlaneCoding,
    matrix: Seq<u16>,
    blocks: Seq<Seq<i16>>,
    coded: Seq<bool>,
) -> Seq<Seq<u16>> {
    Seq::new(
        rows.len(),
        |y: int|
            Seq::new(
                rows[y].len(),
                |x: int|
                    {
                        let k = block_index(top, stride, y, x);
                        if top <= y < top + 16 && k < blocks.len() {
                            block_sample(blocks[k], coded[k], c, matrix, (y - top) % 8, x % 8) as u16
                        } else {
                            rows[y][x]
                        }
                    },
            ),
    )
}

/// Painting one more block.
proof fn lemma_painted_push(
    rows: Seq<Seq<u16>>,
    top: int,
    stride: int,
    c: PlaneCoding,
    matrix: Seq<u16>,
    blocks: Seq<Seq<i16>>,
    coded: Seq<bool>,
    b: Seq<i16>,
    h: bool,
)
    requires
        0 < stride,
        stride % 8 == 0,
        0 <= top,
        top + 16 <= rows.len(),
        forall|y: int| top <= y < top + 16 ==> (#[trigger] rows[y]).len() == stride,
        blocks.len() == coded.len(),
        blocks.len() < block_count(stride),
    ensures
        painted(rows, top, stride, c, matrix, blocks.push(b), coded.push(h)) == with_block(
            painted(rows, top, stride, c, matrix, blocks, coded),
            block_row(top, stride, blocks.len() as int),
            block_column(stride, blocks.len() as int),
            |y: int, x: int| block_sample(b, h, c, matrix, y, x),
        ),
{
    let n = blocks.len() as int;
    let l = painted(rows, top, stride, c, matrix, blocks.push(b), coded.push(h));
    let r = with_block(
        painted(rows, top, stride, c, matrix, blocks, coded),
        block_row(top, stride, n),
        block_column(stride, n),
        |y: int, x: int| block_sample(b, h, c, matrix, y, x),
    );
    assert forall|y: int, x: int|
        0 <= y < rows.len() && 0 <= x < rows[y].len() implies #[trigger] l[y][x] == r[y][x] by {
        if top <= y < top + 16 {
            let k = block_index(top, stride, y, x);
            let (y0, x0) = (block_row(top, stride, n), block_column(stride, n));
            assert(k == n <==> (y0 <= y < y0 + 8 && x0 <= x < x0 + 8));
            if k == n {
                assert(y - y0 == (y - top) % 8 && x - x0 == x % 8);
            }
        }
    }
    assert(l =~~= r);
}

/// Reads the AC symbols of one block.
fn read_ac_block(ac: &mut BitReader, pending0: u64, block: &mut [i16; 64]) -> (r: Result<u64, Corrupt>)
    requires
        old(ac).at() < 0x0100_0000_0000_0000,
    ensures
        final(ac).data() == old(ac).data(),
        old(ac).at() <= final(ac).at() <= old(ac).at() + 114 * 64,
        match ac_block(old(ac).data(), old(ac).at(), pending0 as nat, old(block)@) {
            Some((b, p, n)) => {
                &&& r is Ok
                &&& r->Ok_0 == n
                &&& final(block)@ == b
                &&& final(ac).at() == p
            },
            None => r is Err,
        },
{
    let ghost want = ac_block(ac.data(), ac.at(), pending0 as nat, block@);
    let mut pending: u64 = pending0;
    let mut left: u64 = 64;
    while pending < 64
        invariant
            old(ac).at() < 0x0100_0000_0000_0000,
            want == ac_block(old(ac).data(), old(ac).at(), pending0 as nat, old(block)@),
            ac.data() == old(ac).data(),
            left <= 64,
            pending < 64 ==> left >= 64 - pending,
            old(ac).at() <= ac.at() <= old(ac).at() + 114 * (64 - left),
            ac_block(ac.data(), ac.at(), pending as nat, block@) == want,
        decreases left,
    {
        proof {
            lemma_symbol(ac.data(), ac.at());
        }
        match ac.ac_symbol()? {
            AcSymbol::Run(n) => {
                pending = pending + n;
            },
            AcSymbol::Value(v) => {
                let c: i16 = from_code(v);
                block[pending as usize] = c;
                pending = pending + 1;
            },
        }
        left = left - 1;
    }
    Ok(pending - 64)
}

/// Reads one DC difference.
fn read_dc(dc: &mut BitReader) -> (r: Result<Option<u64>, Corrupt>)
    requires
        old(dc).at() < 0x0100_0000_0000_0000,
    ensures
        final(dc).data() == old(dc).data(),
        old(dc).at() <= final(dc).at() <= old(dc).at() + 114,
        match dc_at(old(dc).data(), old(dc).at()) {
            Some((code, p)) => r == Ok::<Option<u64>, Corrupt>(code) && final(dc).at() == p,
            None => r is Err,
        },
{
    if dc.bit() == 1 {
        dc.bit();
        Ok(None)
    } else {
        let v: u64 = dc.code_tail()?;
        Ok(Some(v))
    }
}

/// A DC difference at full precision.
fn full_dc(code: u64, dc_shift: u32) -> (r: i16)
    requires
        dc_shift <= 15,
    ensures
        r == dc_step(code, dc_shift as nat),
{
    let c: i16 = from_code(code);
    proof {
        vstd::arithmetic::power2::lemma2_to64();
        if dc_shift < 15 {
            vstd::arithmetic::power2::lemma_pow2_strictly_increases(dc_shift as nat, 15);
        }
        vstd::bits::lemma_u32_shl_is_mul(1, dc_shift);
    }
    let m: u32 = 1u32 << dc_shift;
    assert(m == pow2(dc_shift as nat) && m <= 32768);
    assert(-0x4000_0000 <= c * m <= 0x4000_0000) by (nonlinear_arith)
        requires
            -32768 <= c <= 32767,
            0 <= m <= 32768,
    ;
    cut(c as i32 * m as i32)
}

/// Reads one block; `pending` zeros and the DC `pred` come before it.
fn read_block(
    dc: &mut BitReader,
    ac: &mut BitReader,
    pending: u64,
    pred: i16,
    dc_shift: u32,
    block: &mut [i16; 64],
    Ghost(st): Ghost<PlaneState>,
) -> (r: Result<u64, Corrupt>)
    requires
        dc_shift <= 15,
        old(dc).at() < 0x0100_0000_0000_0000,
        old(ac).at() < 0x0100_0000_0000_0000,
        st.pending == pending,
        st.pred == pred,
        st.dc == old(dc).at(),
        st.ac == old(ac).at(),
    ensures
        final(dc).data() == old(dc).data(),
        final(ac).data() == old(ac).data(),
        old(dc).at() <= final(dc).at() <= old(dc).at() + 114,
        old(ac).at() <= final(ac).at() <= old(ac).at() + 114 * 64,
        match next_block(old(dc).data(), old(ac).data(), dc_shift as nat, st) {
            Some(n) => {
                &&& r is Ok
                &&& n.pending == r->Ok_0
                &&& n.pred == final(block)@[0]
                &&& n.blocks == st.blocks.push(final(block)@)
                &&& n.coded == st.coded.push(pending < 64)
                &&& n.dc == final(dc).at()
                &&& n.ac == final(ac).at()
            },
            None => r is Err,
        },
{
    *block = [0i16; 64];
    assert(block@ =~= zero_block());
    let n: u64 = read_ac_block(ac, pending, block)?;
    let ghost b = block@;
    match read_dc(dc)? {
        Some(v) => {
            block[0] = full_dc(v, dc_shift);
        },
        None => {},
    }
    let d: i16 = cut(block[0] as i32 + pred as i32);
    block[0] = d;
    assert(block@ =~= b.update(0, d));
    Ok(n)
}

/// Writes the samples of one block that was read.
fn write_block(
    block: &[i16; 64],
    coded: bool,
    depth: Depth,
    shift: i16,
    matrix: &[u16; 64],
    rows: &mut Vec<Vec<u16>>,
    y0: usize,
    x0: usize,
    Ghost(c): Ghost<PlaneCoding>,
)
    requires
        block_fits(grid(old(rows)@), y0 as int, x0 as int),
        c.depth == depth,
        c.shift == shift,
    ensures
        grid(final(rows)@) == with_block(
            grid(old(rows)@),
            y0 as int,
            x0 as int,
            |y: int, x: int| block_sample(block@, coded, c, matrix@, y, x),
        ),
{
    let flat: bool = match depth {
        Depth::Eight => !coded,
        Depth::Ten => false,
    };
    if flat {
        broadcast_dc8(block[0], rows, y0, x0, shift);
        assert((|y: int, x: int| flat_sample(block@[0] as int, shift as int)) =~= (|y: int, x: int|
            block_sample(block@, coded, c, matrix@, y, x)));
    } else {
        idct(block, depth, matrix, rows, y0, x0, shift);
        assert((|y: int, x: int|
            stored_sample(inverse(block@, depth, matrix@, shift as int, y, x), depth)) =~= (|
            y: int,
            x: int,
        | block_sample(block@, coded, c, matrix@, y, x)));
    }
}

/// Decodes one plane of one slice into the 16 rows from `top` on.
pub fn decode_plane(
    rows: &mut Vec<Vec<u16>>,
    top: usize,
    stride: usize,
    depth: Depth,
    shift: i16,
    matrix: &[u16; 64],
    dc_shift: u32,
    dc: &mut BitReader,
    ac: &mut BitReader,
) -> (r: Result<(), Corrupt>)
    requires
        0 < stride <= MAX_STRIDE,
        stride % 8 == 0,
        top + 16 <= old(rows)@.len(),
        forall|y: int| top <= y < top + 16 ==> (#[trigger] grid(old(rows)@)[y]).len() == stride,
        dc_shift <= 15,
        old(dc).at() < 0x0010_0000_0000_0000,
        old(ac).at() < 0x0010_0000_0000_0000,
    ensures
        final(dc).data() == old(dc).data(),
        final(ac).data() == old(ac).data(),
        final(dc).at() <= old(dc).at() + 0x20_0000_0000,
        final(ac).at() <= old(ac).at() + 0x20_0000_0000,
        ({
            let c = PlaneCoding { depth, shift: shift as int, dc_shift: dc_shift as nat };
            match read_blocks(
                old(dc).data(),
                old(ac).data(),
                old(dc).at(),
                old(ac).at(),
                dc_shift as nat,
                block_count(stride as int) as nat,
            ) {
                Some(st) => {
                    &&& r is Ok
                    &&& grid(final(rows)@) == painted(
                        grid(old(rows)@),
                        top as int,
                        stride as int,
                        c,
                        matrix@,
                        st.blocks,
                        st.coded,
                    )
                    &&& final(dc).at() == (st.dc + 7) / 8 * 8
                    &&& final(ac).at() == (st.ac + 7) / 8 * 8
                },
                None => {
                    &&& r is Err
                    &&& final(rows)@.len() == old(rows)@.len()
                    &&& forall|y: int|
                        0 <= y < old(rows)@.len() ==> (#[trigger] grid(final(rows)@)[y]).len() == grid(
                            old(rows)@,
                        )[y].len()
                },
            }
        }),
{
    let ghost c = PlaneCoding { depth, shift: shift as int, dc_shift: dc_shift as nat };
    let ghost g0 = grid(rows@);
    let ghost (dcd, acd, dc0, ac0) = (dc.data(), ac.data(), dc.at(), ac.at());
    let ghost total = block_count(stride as int);
    let count: usize = stride / 8;
    let mut block: [i16; 64] = [0i16; 64];
    let mut pred: i16 = 0;
    let mut pending: u64 = 0;
    let mut k: usize = 0;
    let ghost mut st = read_blocks(dcd, acd, dc0, ac0, dc_shift as nat, 0)->0;
    assert(grid(rows@) =~~= painted(g0, top as int, stride as int, c, matrix@, st.blocks, st.coded));
    while k < 2 * count
        invariant
            k <= 2 * count,
            count == stride / 8,
            total == block_count(stride as int),
            0 < stride <= MAX_STRIDE,
            stride % 8 == 0,
            top + 16 <= rows.len(),
            g0 == grid(old(rows)@),
            g0.len() == rows.len(),
            forall|y: int| top <= y < top + 16 ==> (#[trigger] g0[y]).len() == stride,
            c == (PlaneCoding { depth, shift: shift as int, dc_shift: dc_shift as nat }),
            dc_shift <= 15,
            dcd == old(dc).data(),
            acd == old(ac).data(),
            dc0 == old(dc).at(),
            ac0 == old(ac).at(),
            dc.data() == dcd,
            ac.data() == acd,
            dc0 < 0x0010_0000_0000_0000,
            ac0 < 0x0010_0000_0000_0000,
            dc0 <= dc.at() <= dc0 + 114 * k,
            ac0 <= ac.at() <= ac0 + 7296 * k,
            read_blocks(dcd, acd, dc0, ac0, dc_shift as nat, k as nat) == Some(st),
            st.blocks.len() == k,
            st.coded.len() == k,
            st.pred == pred,
            st.pending == pending,
            st.dc == dc.at(),
            st.ac == ac.at(),
            grid(rows@) == painted(g0, top as int, stride as int, c, matrix@, st.blocks, st.coded),
        decreases 2 * count - k,
    {
        let coded: bool = pending < 64;
        let ghost next = next_block(dcd, acd, dc_shift as nat, st);
        assert(next == read_blocks(dcd, acd, dc0, ac0, dc_shift as nat, (k + 1) as nat));
        match read_block(dc, ac, pending, pred, dc_shift, &mut block, Ghost(st)) {
            Ok(n) => {
                pending = n;
            },
            Err(e) => {
                proof {
                    lemma_read_blocks_stuck(
                        dcd,
                        acd,
                        dc0,
                        ac0,
                        dc_shift as nat,
                        (k + 1) as nat,
                        total as nat,
                    );
                }
                return Err(e);
            },
        }
        pred = block[0];
        let y0: usize = if k < count {
            top
        } else {
            top + 8
        };
        let x0: usize = if k < count {
            8 * k
        } else {
            8 * (k - count)
        };
        assert(y0 == block_row(top as int, stride as int, k as int));
        assert(x0 == block_column(stride as int, k as int));
        assert(x0 + 8 <= stride);
        proof {
            lemma_painted_push(
                g0,
                top as int,
                stride as int,
                c,
                matrix@,
                st.blocks,
                st.coded,
                block@,
                coded,
            );
        }
        write_block(&block, coded, depth, shift, matrix, rows, y0, x0, Ghost(c));
        assert(rows@.len() == grid(rows@).len());
        proof {
            st = next->0;
        }
        k = k + 1;
    }
    ac.align();
    dc.align();
    Ok(())
}

/// Once a block cannot be read, neither can any longer prefix.
proof fn lemma_read_blocks_stuck(
    dcd: Seq<u8>,
    acd: Seq<u8>,
    dc0: int,
    ac0: int,
    dc_shift: nat,
    k: nat,
    n: nat,
)
    requires
        k <= n,
        read_blocks(dcd, acd, dc0, ac0, dc_shift, k) is None,
    ensures
        read_blocks(dcd, acd, dc0, ac0, dc_shift, n) is None,
    decreases n,
{
    if k < n {
        lemma_read_blocks_stuck(dcd, acd, dc0, ac0, dc_shift, k, (n - 1) as nat);
    }
}

// ---------------------------------------------------------------------------
// Preview
// ---------------------------------------------------------------------------

/// Reads `n` DC values and nothing else: the values and the position after
/// them.
pub open spec fn read_dcs(dcd: Seq<u8>, dc0: int, dc_shift: nat, n: nat) -> Option<(Seq<int>, int)>
    decreases n,
{
    if n == 0 {
        Some((Seq::empty(), dc0))
    } else {
        match read_dcs(dcd, dc0, dc_shift, (n - 1) as nat) {
            Some((values, pos)) => match dc_at(dcd, pos) {
                Some((code, p)) => {
                    let step = match code {
                        None => 0,
                        Some(v) => dc_step(v, dc_shift),
                    };
                    Some((values.push(wrap16(step + previous(values))), p))
                },
                None => None,
            },
            None => None,
        }
    }
}

/// The preview sample of a block with this DC.
pub open spec fn preview_sample(dc: int, shift: int) -> int {
    wrap16(down16(wrap16(dc + 4), 3) + shift) % 256
}

/// The two preview rows of a plane of a slice.
pub open spec fn preview_rows(values: Seq<int>, stride: int, shift: int) -> (Seq<u8>, Seq<u8>) {
    let n = (stride / 8) as nat;
    (
        Seq::new(n, |i: int| preview_sample(values[i], shift) as u8),
        Seq::new(n, |i: int| preview_sample(values[n + i], shift) as u8),
    )
}

proof fn lemma_low_byte(x: i16)
    by (bit_vector)
    ensures
        (x as u8) as int == (x + 65536) % 256,
{
}

/// Reads one DC value of a preview.
fn read_preview_dc(dc: &mut BitReader, pred: i16, dc_shift: u32) -> (r: Result<i16, Corrupt>)
    requires
        dc_shift <= 15,
        old(dc).at() < 0x0100_0000_0000_0000,
    ensures
        final(dc).data() == old(dc).data(),
        old(dc).at() <= final(dc).at() <= old(dc).at() + 114,
        match dc_at(old(dc).data(), old(dc).at()) {
            Some((code, p)) => {
                let step = match code {
                    None => 0,
                    Some(v) => dc_step(v, dc_shift as nat),
                };
                &&& r is Ok
                &&& r->Ok_0 == wrap16(step + pred)
                &&& final(dc).at() == p
            },
            None => r is Err,
        },
{
    let step: i16 = match read_dc(dc)? {
        Some(v) => full_dc(v, dc_shift),
        None => 0,
    };
    Ok(cut(step as i32 + pred as i32))
}

/// The preview sample of a block with this DC.
fn preview_byte(dc: i16, shift: i16) -> (r: u8)
    ensures
        r == preview_sample(dc as int, shift as int),
{
    let p: i16 = cut(srai16(cut(dc as i32 + 4), 3) as i32 + shift as i32);
    proof {
        lemma_low_byte(p);
    }
    p as u8
}

/// Reads `n` DC values.
fn read_preview_dcs(n: usize, dc_shift: u32, dc: &mut BitReader) -> (r: Result<Vec<i16>, Corrupt>)
    requires
        n <= 2 * MAX_STRIDE,
        dc_shift <= 15,
        old(dc).at() < 0x0010_0000_0000_0000,
    ensures
        final(dc).data() == old(dc).data(),
        final(dc).at() <= old(dc).at() + 114 * n,
        match read_dcs(old(dc).data(), old(dc).at(), dc_shift as nat, n as nat) {
            Some((values, p)) => {
                &&& r is Ok
                &&& r->Ok_0@.len() == n
                &&& values == r->Ok_0@.map_values(|v: i16| v as int)
                &&& final(dc).at() == p
            },
            None => r is Err,
        },
{
    let mut out: Vec<i16> = Vec::new();
    let mut pred: i16 = 0;
    let mut k: usize = 0;
    assert(out@.map_values(|v: i16| v as int) =~= Seq::<int>::empty());
    while k < n
        invariant
            k <= n,
            n <= 2 * MAX_STRIDE,
            dc_shift <= 15,
            dc.data() == old(dc).data(),
            old(dc).at() < 0x0010_0000_0000_0000,
            old(dc).at() <= dc.at() <= old(dc).at() + 114 * k,
            out@.len() == k,
            read_dcs(old(dc).data(), old(dc).at(), dc_shift as nat, k as nat) == Some(
                (out@.map_values(|v: i16| v as int), dc.at()),
            ),
            pred == previous(out@.map_values(|v: i16| v as int)),
        decreases n - k,
    {
        let ghost before = out@.map_values(|v: i16| v as int);
        match read_preview_dc(dc, pred, dc_shift) {
            Ok(d) => {
                out.push(d);
                pred = d;
                assert(out@.map_values(|v: i16| v as int) =~= before.push(d as int));
            },
            Err(e) => {
                proof {
                    lemma_read_dcs_stuck(
                        old(dc).data(),
                        old(dc).at(),
                        dc_shift as nat,
                        (k + 1) as nat,
                        n as nat,
                    );
                }
                return Err(e);
            },
        }
        k = k + 1;
    }
    Ok(out)
}

/// The preview samples of `n` DC values from `from` on.
fn preview_row(values: &Vec<i16>, from: usize, n: usize, shift: i16) -> (r: Vec<u8>)
    requires
        from + n <= values@.len(),
    ensures
        r@ == Seq::new(n as nat, |i: int| preview_sample(values@[from + i] as int, shift as int) as u8),
{
    let mut out: Vec<u8> = Vec::new();
    let mut k: usize = 0;
    while k < n
        invariant
            k <= n,
            from + n <= values.len(),
            out@.len() == k,
            forall|i: int|
                0 <= i < k ==> #[trigger] out@[i] == preview_sample(
                    values@[from + i] as int,
                    shift as int,
                ) as u8,
        decreases n - k,
    {
        out.push(preview_byte(values[from + k], shift));
        k = k + 1;
    }
    assert(out@ =~= Seq::new(
        n as nat,
        |i: int| preview_sample(values@[from + i] as int, shift as int) as u8,
    ));
    out
}

/// Decodes the DC-only 1/8 preview of one plane of one slice: two rows of
/// `stride / 8` samples.
pub fn decode_plane_preview(stride: usize, shift: i16, dc_shift: u32, dc: &mut BitReader) -> (r: Result<
    (Vec<u8>, Vec<u8>),
    Corrupt,
>)
    requires
        0 < stride <= MAX_STRIDE,
        dc_shift <= 15,
        old(dc).at() < 0x0010_0000_0000_0000,
    ensures
        final(dc).data() == old(dc).data(),
        final(dc).at() <= old(dc).at() + 0x20_0000_0000,
        match read_dcs(
            old(dc).data(),
            old(dc).at(),
            dc_shift as nat,
            block_count(stride as int) as nat,
        ) {
            Some((values, p)) => {
                &&& r is Ok
                &&& (r->Ok_0.0@, r->Ok_0.1@) == preview_rows(values, stride as int, shift as int)
                &&& final(dc).at() == (p + 7) / 8 * 8
            },
            None => r is Err,
        },
{
    let count: usize = stride / 8;
    let values: Vec<i16> = read_preview_dcs(2 * count, dc_shift, dc)?;
    let out0: Vec<u8> = preview_row(&values, 0, count, shift);
    let out1: Vec<u8> = preview_row(&values, count, count, shift);
    dc.align();
    proof {
        let want = preview_rows(
            values@.map_values(|v: i16| v as int),
            stride as int,
            shift as int,
        );
        assert(out0@ =~= want.0);
        assert(out1@ =~= want.1);
    }
    Ok((out0, out1))
}

proof fn lemma_read_dcs_stuck(dcd: Seq<u8>, dc0: int, dc_shift: nat, k: nat, n: nat)
    requires
        k <= n,
        read_dcs(dcd, dc0, dc_shift, k) is None,
    ensures
        read_dcs(dcd, dc0, dc_shift, n) is None,
    decreases n,
{
    if k < n {
        lemma_read_dcs_stuck(dcd, dc0, dc_shift, k, (n - 1) as nat);
    }
}

} // verus!
