//! Bit-packed light storage of one chunk.
use vstd::prelude::*;
use crate::voxels::chunk::{cell_index, is_local, CHUNK_VOL};

verus! {

/// 16 to the power `channel`, the weight of a channel's hexadecimal digit.
pub open spec fn channel_weight(channel: int) -> int {
    if channel == 0 {
        1
    } else if channel == 1 {
        16
    } else if channel == 2 {
        256
    } else {
        4096
    }
}

/// The light of `channel` packed in `word`: its hexadecimal digit number `channel`.
pub open spec fn channel_of(word: u16, channel: int) -> u8 {
    ((word as int / channel_weight(channel)) % 16) as u8
}

/// `word` with the digit of `channel` replaced by the low four bits of `value`.
pub open spec fn with_channel(word: u16, channel: int, value: u8) -> u16 {
    (word as int - channel_of(word, channel) as int * channel_weight(channel) + (value as int % 16)
        * channel_weight(channel)) as u16
}

/// Reading a channel after writing it gives the written value, masked to four
/// bits; every other channel keeps its value.
pub proof fn lemma_with_channel(word: u16, channel: int, value: u8, other: int)
    requires
        0 <= channel < 4,
        0 <= other < 4,
    ensures
        channel_of(with_channel(word, channel, value), other) == if other == channel {
            (value % 16) as u8
        } else {
            channel_of(word, other)
        },
        channel_of(word, other) <= 15,
{
    if channel == 0 {
        assert({
            let n = word - (word % 16) * 1 + (value % 16) * 1;
            &&& 0 <= n < 0x10000
            &&& (n / 1) % 16 == value % 16
            &&& (n / 16) % 16 == (word / 16) % 16
            &&& (n / 256) % 16 == (word / 256) % 16
            &&& (n / 4096) % 16 == (word / 4096) % 16
        }) by (bit_vector);
    } else if channel == 1 {
        assert({
            let n = word - ((word / 16) % 16) * 16 + (value % 16) * 16;
            &&& 0 <= n < 0x10000
            &&& (n / 1) % 16 == (word / 1) % 16
            &&& (n / 16) % 16 == value % 16
            &&& (n / 256) % 16 == (word / 256) % 16
            &&& (n / 4096) % 16 == (word / 4096) % 16
        }) by (bit_vector);
    } else if channel == 2 {
        assert({
            let n = word - ((word / 256) % 16) * 256 + (value % 16) * 256;
            &&& 0 <= n < 0x10000
            &&& (n / 1) % 16 == (word / 1) % 16
            &&& (n / 16) % 16 == (word / 16) % 16
            &&& (n / 256) % 16 == value % 16
            &&& (n / 4096) % 16 == (word / 4096) % 16
        }) by (bit_vector);
    } else {
        assert({
            let n = word - ((word / 4096) % 16) * 4096 + (value % 16) * 4096;
            &&& 0 <= n < 0x10000
            &&& (n / 1) % 16 == (word / 1) % 16
            &&& (n / 16) % 16 == (word / 16) % 16
            &&& (n / 256) % 16 == (word / 256) % 16
            &&& (n / 4096) % 16 == value % 16
        }) by (bit_vector);
    }
}

/// Shifting and masking reads the digit of a channel.
proof fn lemma_read_bits(word: u16, channel: usize)
    requires
        channel < 4,
    ensures
        (word >> ((channel << 2) as u16)) & 0xF == channel_of(word, channel as int),
        channel << 2 == 4 * channel,
{
    if channel == 0 {
        assert((0usize << 2) == 0) by (bit_vector);
        assert((word >> 0u16) & 0xF == word % 16) by (bit_vector);
    } else if channel == 1 {
        assert((1usize << 2) == 4) by (bit_vector);
        assert((word >> 4u16) & 0xF == (word / 16) % 16) by (bit_vector);
    } else if channel == 2 {
        assert((2usize << 2) == 8) by (bit_vector);
        assert((word >> 8u16) & 0xF == (word / 256) % 16) by (bit_vector);
    } else {
        assert((3usize << 2) == 12) by (bit_vector);
        assert((word >> 12u16) & 0xF == (word / 4096) % 16) by (bit_vector);
    }
}

/// Clearing the bits of a channel and setting them anew replaces its digit.
proof fn lemma_write_bits(word: u16, channel: usize, value: u8)
    requires
        channel < 4,
    ensures
        (word & (0xFFFF & !(0xFu16 << ((channel * 4) as u16)))) | (((value & 0xF) as u16) << ((channel
            << 2) as u16)) == with_channel(word, channel as int, value),
        channel << 2 == 4 * channel,
{
    lemma_read_bits(word, channel);
    if channel == 0 {
        assert((word & (0xFFFF & !(0xFu16 << 0u16))) | (((value & 0xF) as u16) << 0u16) == word - (
        word % 16) + (value % 16)) by (bit_vector);
    } else if channel == 1 {
        assert((word & (0xFFFF & !(0xFu16 << 4u16))) | (((value & 0xF) as u16) << 4u16) == word - ((
        word / 16) % 16) * 16 + (value % 16) * 16) by (bit_vector);
    } else if channel == 2 {
        assert((word & (0xFFFF & !(0xFu16 << 8u16))) | (((value & 0xF) as u16) << 8u16) == word - ((
        word / 256) % 16) * 256 + (value % 16) * 256) by (bit_vector);
    } else {
        assert((word & (0xFFFF & !(0xFu16 << 12u16))) | (((value & 0xF) as u16) << 12u16) == word
            - ((word / 4096) % 16) * 4096 + (value % 16) * 4096) by (bit_vector);
    }
}

/// Light of one chunk: one 16-bit word per voxel, four channels of four bits.
#[derive(Debug)]
pub struct LightMap {
    map: Vec<u16>,
}

impl View for LightMap {
    type V = Seq<u16>;

    /// The packed words, one per cell, in the chunk's `(y, z, x)` order.
    closed spec fn view(&self) -> Seq<u16> {
        self.map@
    }
}

impl Clone for LightMap {
    /// A copy with the same light in every cell.
    fn clone(&self) -> (r: Self)
        ensures
            r@ == self@,
    {
        proof {
            use_type_invariant(self);
        }
        let map = self.map.clone();
        assert(map@ =~= self.map@);
        LightMap { map }
    }
}

impl LightMap {
    #[verifier::type_invariant]
    spec fn inv(&self) -> bool {
        self.map@.len() == CHUNK_VOL
    }

    /// The light of `channel` at the local cell `(x, y, z)`.
    pub open spec fn light(&self, x: int, y: int, z: int, channel: int) -> u8 {
        channel_of(self@[cell_index(x, y, z)], channel)
    }

    /// A light map in which every channel of every cell is dark.
    pub fn new() -> (r: Self)
        ensures
            r@.len() == CHUNK_VOL,
            forall|i: int| 0 <= i < CHUNK_VOL ==> r@[i] == 0,
    {
        let map: Vec<u16> = vec![0u16; CHUNK_VOL];
        LightMap { map }
    }

    /// Reads one channel of one cell.
    pub fn get(&self, x: usize, y: usize, z: usize, channel: usize) -> (r: u8)
        requires
            is_local(x as int, y as int, z as int),
            channel < 4,
        ensures
            r == self.light(x as int, y as int, z as int, channel as int),
            r <= 15,
            self@.len() == CHUNK_VOL,
    {
        proof {
            use_type_invariant(self);
        }
        let index: usize = (y * 16 + z) * 16 + x;
        let word: u16 = self.map[index];
        proof {
            lemma_read_bits(word, channel);
            lemma_with_channel(word, channel as int, 0, channel as int);
        }
        ((word >> ((channel << 2) as u16)) & 0xF) as u8
    }

    /// Reads the first channel of one cell.
    pub fn get_r(&self, x: usize, y: usize, z: usize) -> (r: u8)
        requires
            is_local(x as int, y as int, z as int),
        ensures
            r == self.light(x as int, y as int, z as int, 0),
            r <= 15,
    {
        self.get(x, y, z, 0)
    }

    /// Reads the second channel of one cell.
    pub fn get_g(&self, x: usize, y: usize, z: usize) -> (r: u8)
        requires
            is_local(x as int, y as int, z as int),
        ensures
            r == self.light(x as int, y as int, z as int, 1),
            r <= 15,
    {
        self.get(x, y, z, 1)
    }

    /// Reads the third channel of one cell.
    pub fn get_b(&self, x: usize, y: usize, z: usize) -> (r: u8)
        requires
            is_local(x as int, y as int, z as int),
        ensures
            r == self.light(x as int, y as int, z as int, 2),
            r <= 15,
    {
        self.get(x, y, z, 2)
    }

    /// Reads the ambient channel of one cell.
    pub fn get_s(&self, x: usize, y: usize, z: usize) -> (r: u8)
        requires
            is_local(x as int, y as int, z as int),
        ensures
            r == self.light(x as int, y as int, z as int, 3),
            r <= 15,
    {
        self.get(x, y, z, 3)
    }

    /// Overwrites the first channel of one cell with the low four bits of `value`.
    pub fn set_r(&mut self, x: usize, y: usize, z: usize, value: u8)
        requires
            is_local(x as int, y as int, z as int),
        ensures
            final(self)@ == old(self)@.update(
                cell_index(x as int, y as int, z as int),
                with_channel(old(self)@[cell_index(x as int, y as int, z as int)], 0, value),
            ),
            final(self).light(x as int, y as int, z as int, 0) == value % 16,
            forall|c: int|
                0 <= c < 4 && c != 0 ==> final(self).light(x as int, y as int, z as int, c) == old(
                    self,
                ).light(x as int, y as int, z as int, c),
    {
        self.set(x, y, z, 0, value)
    }

    /// Overwrites the second channel of one cell with the low four bits of `value`.
    pub fn set_g(&mut self, x: usize, y: usize, z: usize, value: u8)
        requires
            is_local(x as int, y as int, z as int),
        ensures
            final(self)@ == old(self)@.update(
                cell_index(x as int, y as int, z as int),
                with_channel(old(self)@[cell_index(x as int, y as int, z as int)], 1, value),
            ),
            final(self).light(x as int, y as int, z as int, 1) == value % 16,
            forall|c: int|
                0 <= c < 4 && c != 1 ==> final(self).light(x as int, y as int, z as int, c) == old(
                    self,
                ).light(x as int, y as int, z as int, c),
    {
        self.set(x, y, z, 1, value)
    }

    /// Overwrites the third channel of one cell with the low four bits of `value`.
    pub fn set_b(&mut self, x: usize, y: usize, z: usize, value: u8)
        requires
            is_local(x as int, y as int, z as int),
        ensures
            final(self)@ == old(self)@.update(
                cell_index(x as int, y as int, z as int),
                with_channel(old(self)@[cell_index(x as int, y as int, z as int)], 2, value),
            ),
            final(self).light(x as int, y as int, z as int, 2) == value % 16,
            forall|c: int|
                0 <= c < 4 && c != 2 ==> final(self).light(x as int, y as int, z as int, c) == old(
                    self,
                ).light(x as int, y as int, z as int, c),
    {
        self.set(x, y, z, 2, value)
    }

    /// Overwrites the ambient channel of one cell with the low four bits of `value`.
    pub fn set_s(&mut self, x: usize, y: usize, z: usize, value: u8)
        requires
            is_local(x as int, y as int, z as int),
        ensures
            final(self)@ == old(self)@.update(
                cell_index(x as int, y as int, z as int),
                with_channel(old(self)@[cell_index(x as int, y as int, z as int)], 3, value),
            ),
            final(self).light(x as int, y as int, z as int, 3) == value % 16,
            forall|c: int|
                0 <= c < 4 && c != 3 ==> final(self).light(x as int, y as int, z as int, c) == old(
                    self,
                ).light(x as int, y as int, z as int, c),
    {
        self.set(x, y, z, 3, value)
    }

    /// Overwrites one channel of one cell with the low four bits of `value`;
    /// the cell's other channels and every other cell keep their light.
    pub fn set(&mut self, x: usize, y: usize, z: usize, channel: usize, value: u8)
        requires
            is_local(x as int, y as int, z as int),
            channel < 4,
        ensures
            old(self)@.len() == CHUNK_VOL,
            final(self)@ == old(self)@.update(
                cell_index(x as int, y as int, z as int),
                with_channel(
                    old(self)@[cell_index(x as int, y as int, z as int)],
                    channel as int,
                    value,
                ),
            ),
            final(self).light(x as int, y as int, z as int, channel as int) == value % 16,
            forall|c: int|
                0 <= c < 4 && c != channel ==> final(self).light(x as int, y as int, z as int, c)
                    == old(self).light(x as int, y as int, z as int, c),
    {
        proof {
            use_type_invariant(&*self);
        }
        let index: usize = (y * 16 + z) * 16 + x;
        let word: u16 = self.map[index];
        proof {
            lemma_write_bits(word, channel, value);
            assert forall|c: int| 0 <= c < 4 implies channel_of(
                with_channel(word, channel as int, value),
                c,
            ) == if c == channel {
                (value % 16) as u8
            } else {
                channel_of(word, c)
            } by {
                lemma_with_channel(word, channel as int, value, c);
            }
        }
        let cleared: u16 = word & (0xFFFF & !(0xFu16 << ((channel * 4) as u16)));
        self.map[index] = cleared | (((value & 0xF) as u16) << ((channel << 2) as u16));
    }
}

} // verus!
