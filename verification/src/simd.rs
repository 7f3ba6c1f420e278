//! Registers of `i16` lanes, and tiles of registers that move through an accumulator together.

use crate::sums::wrap_i16;
use vstd::prelude::*;

verus! {

/// Lanes in one register.
pub const I16_CHUNK: usize = 16;

/// Registers in one tile.
pub const REGISTERS: usize = 16;

/// Lanes in one tile.
pub const UNROLL: usize = 256;

/// One register of `I16_CHUNK` lanes.
#[derive(Clone, Copy)]
pub struct VecI16 {
    pub lanes: [i16; I16_CHUNK],
}

/// A register with every lane zero.
pub fn zero_i16() -> (r: VecI16)
    ensures
        forall|k: int| 0 <= k < I16_CHUNK ==> r.lanes@[k] == 0,
{
    VecI16 { lanes: [0i16; I16_CHUNK] }
}

/// Reads a register from the `I16_CHUNK` values of `src` at `at`.
pub fn load_i16(src: &[i16], at: usize) -> (r: VecI16)
    requires
        at + I16_CHUNK <= src.len(),
    ensures
        forall|k: int| 0 <= k < I16_CHUNK ==> r.lanes@[k] == src@[at + k],
{
    let mut lanes = [0i16; I16_CHUNK];
    let mut k: usize = 0;
    while k < I16_CHUNK
        invariant
            k <= I16_CHUNK,
            at + I16_CHUNK <= src.len(),
            forall|i: int| 0 <= i < k ==> lanes@[i] == src@[at + i],
        decreases I16_CHUNK - k,
    {
        lanes[k] = src[at + k];
        k += 1;
    }
    VecI16 { lanes }
}

/// Reads a register from the `I16_CHUNK` bytes of `src` at `at`, each extended with its sign.
pub fn load_extend_i8(src: &[i8], at: usize) -> (r: VecI16)
    requires
        at + I16_CHUNK <= src.len(),
    ensures
        forall|k: int| 0 <= k < I16_CHUNK ==> r.lanes@[k] == src@[at + k],
{
    let mut lanes = [0i16; I16_CHUNK];
    let mut k: usize = 0;
    while k < I16_CHUNK
        invariant
            k <= I16_CHUNK,
            at + I16_CHUNK <= src.len(),
            forall|i: int| 0 <= i < k ==> lanes@[i] == src@[at + i],
        decreases I16_CHUNK - k,
    {
        lanes[k] = src[at + k] as i16;
        k += 1;
    }
    VecI16 { lanes }
}

/// Adds lane by lane, wrapping.
pub fn add_i16(a: VecI16, b: VecI16) -> (r: VecI16)
    ensures
        forall|k: int|
            0 <= k < I16_CHUNK ==> r.lanes@[k] == wrap_i16(a.lanes@[k] + b.lanes@[k]),
{
    let mut lanes = a.lanes;
    let mut k: usize = 0;
    while k < I16_CHUNK
        invariant
            k <= I16_CHUNK,
            forall|i: int|
                0 <= i < k ==> lanes@[i] == wrap_i16(a.lanes@[i] + b.lanes@[i]),
            forall|i: int| k <= i < I16_CHUNK ==> lanes@[i] == a.lanes@[i],
        decreases I16_CHUNK - k,
    {
        lanes[k] = a.lanes[k].wrapping_add(b.lanes[k]);
        k += 1;
    }
    VecI16 { lanes }
}

/// Subtracts lane by lane, wrapping.
pub fn sub_i16(a: VecI16, b: VecI16) -> (r: VecI16)
    ensures
        forall|k: int|
            0 <= k < I16_CHUNK ==> r.lanes@[k] == wrap_i16(a.lanes@[k] - b.lanes@[k]),
{
    let mut lanes = a.lanes;
    let mut k: usize = 0;
    while k < I16_CHUNK
        invariant
            k <= I16_CHUNK,
            forall|i: int|
                0 <= i < k ==> lanes@[i] == wrap_i16(a.lanes@[i] - b.lanes@[i]),
            forall|i: int| k <= i < I16_CHUNK ==> lanes@[i] == a.lanes@[i],
        decreases I16_CHUNK - k,
    {
        lanes[k] = a.lanes[k].wrapping_sub(b.lanes[k]);
        k += 1;
    }
    VecI16 { lanes }
}

/// Writes a register to the `I16_CHUNK` values of `dst` at `at`.
pub fn store_i16<const N: usize>(dst: &mut [i16; N], at: usize, r: VecI16)
    requires
        at + I16_CHUNK <= N,
    ensures
        forall|i: int|
            0 <= i < N ==> final(dst)@[i] == if at <= i < at + I16_CHUNK {
                r.lanes@[i - at]
            } else {
                old(dst)@[i]
            },
{
    let mut k: usize = 0;
    while k < I16_CHUNK
        invariant
            k <= I16_CHUNK,
            at + I16_CHUNK <= N,
            forall|i: int|
                0 <= i < N ==> dst@[i] == if at <= i < at + k {
                    r.lanes@[i - at]
                } else {
                    old(dst)@[i]
                },
        decreases I16_CHUNK - k,
    {
        dst[at + k] = r.lanes[k];
        k += 1;
    }
}

/// `REGISTERS` registers, which hold `UNROLL` consecutive lanes of an accumulator.
pub struct Tile {
    pub registers: [VecI16; REGISTERS],
}

impl Tile {
    /// Lane `t` of the tile.
    pub open spec fn lane(self, t: int) -> i16 {
        self.registers@[t / (I16_CHUNK as int)].lanes@[t % (I16_CHUNK as int)]
    }

    /// A tile with every lane zero.
    pub fn zero() -> (tile: Tile)
        ensures
            forall|t: int| 0 <= t < UNROLL ==> #[trigger] tile.lane(t) == 0,
    {
        Tile { registers: [zero_i16(); REGISTERS] }
    }

    /// Reads the tile that starts at lane `base` of `src`.
    pub fn load(src: &[i16], base: usize) -> (tile: Tile)
        requires
            base + UNROLL <= src.len(),
        ensures
            forall|t: int| 0 <= t < UNROLL ==> #[trigger] tile.lane(t) == src@[base + t],
    {
        let mut tile = Tile::zero();
        let mut r: usize = 0;
        while r < REGISTERS
            invariant
                r <= REGISTERS,
                base + UNROLL <= src.len(),
                forall|q: int, k: int|
                    0 <= q < r && 0 <= k < I16_CHUNK ==> #[trigger] tile.registers@[q].lanes@[k]
                        == src@[base + (q * I16_CHUNK + k)],
            decreases REGISTERS - r,
        {
            tile.registers[r] = load_i16(src, base + r * I16_CHUNK);
            r += 1;
        }
        tile
    }

    /// Writes the tile to the lanes of `dst` from `base` on.
    pub fn store<const N: usize>(&self, dst: &mut [i16; N], base: usize)
        requires
            base + UNROLL <= N,
        ensures
            forall|i: int|
                0 <= i < N ==> #[trigger] final(dst)@[i] == if base <= i < base + UNROLL {
                    self.lane(i - base)
                } else {
                    old(dst)@[i]
                },
    {
        let mut r: usize = 0;
        while r < REGISTERS
            invariant
                r <= REGISTERS,
                base + UNROLL <= N,
                forall|i: int|
                    0 <= i < N ==> #[trigger] dst@[i] == if base <= i < base + r * I16_CHUNK {
                        self.lane(i - base)
                    } else {
                        old(dst)@[i]
                    },
            decreases REGISTERS - r,
        {
            store_i16(dst, base + r * I16_CHUNK, self.registers[r]);
            r += 1;
        }
    }

    /// Adds the `UNROLL` weights of `src` from `base` on, wrapping.
    pub fn add_weights_i16(&mut self, src: &[i16], base: usize)
        requires
            base + UNROLL <= src.len(),
        ensures
            forall|t: int|
                0 <= t < UNROLL ==> #[trigger] final(self).lane(t) == wrap_i16(
                    old(self).lane(t) + src@[base + t],
                ),
    {
        let mut r: usize = 0;
        while r < REGISTERS
            invariant
                r <= REGISTERS,
                base + UNROLL <= src.len(),
                forall|q: int, k: int|
                    0 <= q < r && 0 <= k < I16_CHUNK ==> #[trigger] self.registers@[q].lanes@[k]
                        == wrap_i16(
                        old(self).registers@[q].lanes@[k] + src@[base + (q * I16_CHUNK + k)],
                    ),
                forall|q: int|
                    r <= q < REGISTERS ==> #[trigger] self.registers@[q] == old(self).registers@[q],
            decreases REGISTERS - r,
        {
            let weights = load_i16(src, base + r * I16_CHUNK);
            self.registers[r] = add_i16(self.registers[r], weights);
            r += 1;
        }
    }

    /// Subtracts the `UNROLL` weights of `src` from `base` on, wrapping.
    pub fn sub_weights_i16(&mut self, src: &[i16], base: usize)
        requires
            base + UNROLL <= src.len(),
        ensures
            forall|t: int|
                0 <= t < UNROLL ==> #[trigger] final(self).lane(t) == wrap_i16(
                    old(self).lane(t) - src@[base + t],
                ),
    {
        let mut r: usize = 0;
        while r < REGISTERS
            invariant
                r <= REGISTERS,
                base + UNROLL <= src.len(),
                forall|q: int, k: int|
                    0 <= q < r && 0 <= k < I16_CHUNK ==> #[trigger] self.registers@[q].lanes@[k]
                        == wrap_i16(
                        old(self).registers@[q].lanes@[k] - src@[base + (q * I16_CHUNK + k)],
                    ),
                forall|q: int|
                    r <= q < REGISTERS ==> #[trigger] self.registers@[q] == old(self).registers@[q],
            decreases REGISTERS - r,
        {
            let weights = load_i16(src, base + r * I16_CHUNK);
            self.registers[r] = sub_i16(self.registers[r], weights);
            r += 1;
        }
    }

    /// Adds the `UNROLL` weights of `src` from `base` on, wrapping.
    pub fn add_weights_i8(&mut self, src: &[i8], base: usize)
        requires
            base + UNROLL <= src.len(),
        ensures
            forall|t: int|
                0 <= t < UNROLL ==> #[trigger] final(self).lane(t) == wrap_i16(
                    old(self).lane(t) + src@[base + t],
                ),
    {
        let mut r: usize = 0;
        while r < REGISTERS
            invariant
                r <= REGISTERS,
                base + UNROLL <= src.len(),
                forall|q: int, k: int|
                    0 <= q < r && 0 <= k < I16_CHUNK ==> #[trigger] self.registers@[q].lanes@[k]
                        == wrap_i16(
                        old(self).registers@[q].lanes@[k] + src@[base + (q * I16_CHUNK + k)],
                    ),
                forall|q: int|
                    r <= q < REGISTERS ==> #[trigger] self.registers@[q] == old(self).registers@[q],
            decreases REGISTERS - r,
        {
            let weights = load_extend_i8(src, base + r * I16_CHUNK);
            self.registers[r] = add_i16(self.registers[r], weights);
            r += 1;
        }
    }

    /// Subtracts the `UNROLL` weights of `src` from `base` on, wrapping.
    pub fn sub_weights_i8(&mut self, src: &[i8], base: usize)
        requires
            base + UNROLL <= src.len(),
        ensures
            forall|t: int|
                0 <= t < UNROLL ==> #[trigger] final(self).lane(t) == wrap_i16(
                    old(self).lane(t) - src@[base + t],
                ),
    {
        let mut r: usize = 0;
        while r < REGISTERS
            invariant
                r <= REGISTERS,
                base + UNROLL <= src.len(),
                forall|q: int, k: int|
                    0 <= q < r && 0 <= k < I16_CHUNK ==> #[trigger] self.registers@[q].lanes@[k]
                        == wrap_i16(
                        old(self).registers@[q].lanes@[k] - src@[base + (q * I16_CHUNK + k)],
                    ),
                forall|q: int|
                    r <= q < REGISTERS ==> #[trigger] self.registers@[q] == old(self).registers@[q],
            decreases REGISTERS - r,
        {
            let weights = load_extend_i8(src, base + r * I16_CHUNK);
            self.registers[r] = sub_i16(self.registers[r], weights);
            r += 1;
        }
    }
}

} // verus!
