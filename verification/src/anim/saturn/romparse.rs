//! Decoding of the battle backgrounds stored in the game's read-only memory:
//! background entries, palettes, tile sets, tile arrangements and
//! distortion effects.

use std::collections::HashMap;
use vstd::prelude::*;

use crate::anim::saturn::layout;
use crate::anim::saturn::layout::{
    COPY_N, COPY_N_BIT_REV_FROM, COPY_N_FROM, COPY_N_FROM_BKWD, INC_SEQ, REPEAT_ONE_N,
    REPEAT_TWO_N, STOP,
};

verus! {

/// The decoded battle-background data.
#[derive(Clone, Debug)]
pub struct SaturnBgData {
    pub tiles: Vec<Option<TileSet>>,
    pub arrangements: Vec<Arrangement>,
    pub palettes: Vec<Option<Palette>>,
    pub backgrounds: Vec<BackgroundEntry>,
    pub effects: Vec<DistortionEffect>,
}

/// 8x8 tiles; each pixel is an index into a palette.
#[derive(Clone, Debug)]
pub struct TileSet {
    pub tiles: Vec<[[u8; 8]; 8]>,
}

/// A 32x32 grid of tile references.
#[derive(Clone, Debug)]
pub struct Arrangement {
    pub grid: [[ArrangementEntry; 32]; 32],
}

/// One tile reference of an arrangement.
#[derive(Debug, Clone, Copy)]
pub struct ArrangementEntry {
    /// bits 0-9: which tile
    pub tile_index: u16,
    /// bits 10-12: which sub-palette
    pub sub_palette: u8,
    /// bit 14
    pub h_flip: bool,
    /// bit 15
    pub v_flip: bool,
}

/// RGB colors (4 or 16 depending on the bits per pixel).
#[derive(Clone, Debug)]
pub struct Palette {
    pub colors: Vec<[u8; 3]>,
}

/// One battle background: which graphics and palette it uses, how its
/// palette cycles, how it scrolls, and its four distortion effects.
#[derive(Clone, Debug)]
pub struct BackgroundEntry {
    pub graphics_index: u8,
    pub palette_index: u8,
    /// bits per pixel (2 or 4)
    pub bpp: u8,
    /// palette cycling mode (0-3)
    pub cycle_type: u8,
    pub cycle1_start: u8,
    pub cycle1_end: u8,
    pub cycle2_start: u8,
    pub cycle2_end: u8,
    pub cycle_speed: u8,
    pub movement: [u8; 4],
    /// 4 distortion effect indices (bytes 13-16)
    pub effects: [u8; 4],
}

/// A distortion effect applied to a background.
#[derive(Clone, Copy, PartialEq, Eq, Structural, Debug)]
pub struct DistortionEffect {
    pub duration: i16,
    pub distortion_type: u8,
    pub frequency: i16,
    pub amplitude: i16,
    pub compression: i16,
    pub freq_accel: i16,
    pub amp_accel: i16,
    pub speed: u8,
    pub comp_accel: i16,
}

/// The byte with its bit order reversed.
fn reverse_byte(b: u8) -> (r: u8)
    ensures
        r == layout::reverse_bits(b),
{
    ((b & 0x01) << 7u8) | ((b & 0x02) << 5u8) | ((b & 0x04) << 3u8) | ((b & 0x08) << 1u8) | ((b & 0x10) >> 1u8)
        | ((b & 0x20) >> 3u8) | ((b & 0x40) >> 5u8) | ((b & 0x80) >> 7u8)
}

impl SaturnBgData {
    /// Takes the first byte of `data`.
    fn read_one(data: &mut &[u8]) -> (r: Option<u8>)
        ensures
            old(data)@.len() == 0 ==> r is None && final(data)@ == old(data)@,
            old(data)@.len() > 0 ==> r == Some(old(data)@[0]) && final(data)@
                == old(data)@.drop_first(),
    {
        if data.len() == 0 {
            return None;
        }
        let byte = data[0];
        let (_, rest) = data.split_at(1);
        *data = rest;
        Some(byte)
    }

    /// Takes the first two bytes of `data`.
    fn read_two(data: &mut &[u8]) -> (r: Option<[u8; 2]>)
        ensures
            old(data)@.len() < 2 ==> r is None && final(data)@ == old(data)@,
            old(data)@.len() >= 2 ==> r == Some([old(data)@[0], old(data)@[1]]) && final(data)@
                == old(data)@.skip(2),
    {
        if data.len() < 2 {
            return None;
        }
        let byte1 = data[0];
        let byte2 = data[1];
        let (_, rest) = data.split_at(2);
        *data = rest;
        Some([byte1, byte2])
    }

    /// Takes the first four bytes of `data`.
    fn read_four(data: &mut &[u8]) -> (r: Option<[u8; 4]>)
        ensures
            old(data)@.len() < 4 ==> r is None && final(data)@ == old(data)@,
            old(data)@.len() >= 4 ==> r == Some(
                [old(data)@[0], old(data)@[1], old(data)@[2], old(data)@[3]],
            ) && final(data)@ == old(data)@.skip(4),
    {
        if data.len() < 4 {
            return None;
        }
        let byte1 = data[0];
        let byte2 = data[1];
        let byte3 = data[2];
        let byte4 = data[3];
        let (_, rest) = data.split_at(4);
        *data = rest;
        Some([byte1, byte2, byte3, byte4])
    }

    /// Takes a little-endian `i16` from the front of `data`.
    fn read_i16_le(data: &mut &[u8]) -> (r: Option<i16>)
        ensures
            old(data)@.len() < 2 ==> r is None && final(data)@ == old(data)@,
            old(data)@.len() >= 2 ==> r == Some(layout::i16_le(old(data)@[0], old(data)@[1]))
                && final(data)@ == old(data)@.skip(2),
    {
        let bytes = Self::read_two(data)?;
        let u: u32 = bytes[0] as u32 + 256 * bytes[1] as u32;
        if u >= 0x8000 {
            Some((u as i32 - 0x10000) as i16)
        } else {
            Some(u as i16)
        }
    }

    /// Takes a big-endian `u16` from the front of `data`.
    fn read_u16_be(data: &mut &[u8]) -> (r: Option<u16>)
        ensures
            old(data)@.len() < 2 ==> r is None && final(data)@ == old(data)@,
            old(data)@.len() >= 2 ==> r == Some(layout::u16_be(old(data)@[0], old(data)@[1]))
                && final(data)@ == old(data)@.skip(2),
    {
        let bytes = Self::read_two(data)?;
        Some(256 * bytes[0] as u16 + bytes[1] as u16)
    }

    /// Takes a little-endian `u16` from the front of `data`.
    fn read_u16_le(data: &mut &[u8]) -> (r: Option<u16>)
        ensures
            old(data)@.len() < 2 ==> r is None && final(data)@ == old(data)@,
            old(data)@.len() >= 2 ==> r == Some(layout::u16_le(old(data)@[0], old(data)@[1]))
                && final(data)@ == old(data)@.skip(2),
    {
        let bytes = Self::read_two(data)?;
        Some(bytes[0] as u16 + 256 * bytes[1] as u16)
    }

    /// Takes a little-endian `u32` from the front of `data`.
    fn read_u32_le(data: &mut &[u8]) -> (r: Option<u32>)
        ensures
            old(data)@.len() < 4 ==> r is None && final(data)@ == old(data)@,
            old(data)@.len() >= 4 ==> r == Some(
                layout::u32_le(old(data)@[0], old(data)@[1], old(data)@[2], old(data)@[3]),
            ) && final(data)@ == old(data)@.skip(4),
    {
        let b = Self::read_four(data)?;
        Some(b[0] as u32 + 0x100 * b[1] as u32 + 0x1_0000 * b[2] as u32 + 0x100_0000 * b[3] as u32)
    }

    /// Runs the command of type `cmd` and length `n` whose arguments start
    /// `data`, appending to `out`. Returns `false`, leaving the arguments
    /// partly read, when `apply_command` has no result.
    fn run_command(cmd: u8, n: usize, data: &mut &[u8], out: &mut Vec<u8>) -> (ok: bool)
        requires
            1 <= n <= 1024,
        ensures
            ok == layout::apply_command(cmd, n as int, old(data)@, old(out)@) is Some,
            ok ==> layout::apply_command(cmd, n as int, old(data)@, old(out)@) == Some(
                (final(out)@, final(data)@),
            ),
    {
        let ghost args = data@;
        let ghost out0 = out@;
        if cmd == COPY_N {
            if data.len() < n {
                return false;
            }
            let mut i: usize = 0;
            while i < n
                invariant
                    i <= n <= args.len(),
                    data@ == args.skip(i as int),
                    out@ == out0 + args.take(i as int),
                decreases n - i,
            {
                let b = Self::read_one(data).unwrap();
                out.push(b);
                i += 1;
                assert(out@ =~= out0 + args.take(i as int));
                assert(data@ =~= args.skip(i as int));
            }
            true
        } else if cmd == REPEAT_ONE_N {
            let b = match Self::read_one(data) {
                Some(b) => b,
                None => return false,
            };
            let mut i: usize = 0;
            while i < n
                invariant
                    i <= n,
                    out@ == out0 + layout::repeat_one(b, i as int),
                decreases n - i,
            {
                out.push(b);
                i += 1;
                assert(out@ =~= out0 + layout::repeat_one(b, i as int));
            }
            assert(data@ =~= args.skip(1));
            true
        } else if cmd == REPEAT_TWO_N {
            let pair = match Self::read_two(data) {
                Some(p) => p,
                None => return false,
            };
            let b1 = pair[0];
            let b2 = pair[1];
            let mut i: usize = 0;
            while i < n
                invariant
                    i <= n,
                    out@ == out0 + layout::repeat_two(b1, b2, i as int),
                decreases n - i,
            {
                out.push(b1);
                out.push(b2);
                i += 1;
                assert(out@ =~= out0 + layout::repeat_two(b1, b2, i as int));
            }
            true
        } else if cmd == INC_SEQ {
            let b0 = match Self::read_one(data) {
                Some(b) => b,
                None => return false,
            };
            let mut b = b0;
            let mut i: usize = 0;
            while i < n
                invariant
                    i <= n,
                    b == ((b0 as int + i) % 256) as u8,
                    out@ == out0 + layout::increasing_run(b0, i as int),
                decreases n - i,
            {
                out.push(b);
                b = b.wrapping_add(1);
                i += 1;
                assert(out@ =~= out0 + layout::increasing_run(b0, i as int));
            }
            assert(data@ =~= args.skip(1));
            true
        } else if cmd == COPY_N_FROM || cmd == COPY_N_BIT_REV_FROM || cmd == COPY_N_FROM_BKWD {
            let pos = match Self::read_u16_be(data) {
                Some(p) => p as usize,
                None => return false,
            };
            if pos >= out.len() {
                return false;
            }
            if cmd == COPY_N_FROM {
                Self::copy_forward(pos, n, out);
            } else if cmd == COPY_N_BIT_REV_FROM {
                Self::copy_forward_bit_reversed(pos, n, out);
            } else {
                if pos < n - 1 {
                    return false;
                }
                let mut i: usize = 0;
                while i < n
                    invariant
                        i <= n,
                        n - 1 <= pos < out0.len(),
                        out@ == out0 + layout::backward_copy(out0, pos as int, i as int),
                    decreases n - i,
                {
                    let b = out[pos - i];
                    out.push(b);
                    i += 1;
                    assert(out@ =~= out0 + layout::backward_copy(out0, pos as int, i as int));
                }
            }
            true
        } else {
            false
        }
    }

    /// Appends `n` bytes copied forward from `pos`, reading bytes this copy
    /// has itself written where it overlaps them.
    fn copy_forward(pos: usize, n: usize, out: &mut Vec<u8>)
        requires
            pos < old(out)@.len(),
            n <= 1024,
        ensures
            final(out)@ == old(out)@ + layout::forward_copy(old(out)@, pos as int, n as int),
    {
        let ghost out0 = out@;
        let ghost d = out0.len() - pos;
        let mut i: usize = 0;
        while i < n
            invariant
                i <= n <= 1024,
                pos < out0.len(),
                d == out0.len() - pos,
                out@ == out0 + layout::forward_copy(out0, pos as int, i as int),
                out@.len() == out0.len() + i,
            decreases n - i,
        {
            let written = out.len();
            assert(pos + i < written);
            let b = out[pos + i];
            proof {
                if i < d {
                    vstd::arithmetic::div_mod::lemma_small_mod(i as nat, d as nat);
                } else {
                    vstd::arithmetic::div_mod::lemma_mod_add_multiples_vanish(i - d, d);
                }
            }
            out.push(b);
            i += 1;
            assert(out@ =~= out0 + layout::forward_copy(out0, pos as int, i as int));
        }
    }

    /// As `copy_forward`, reversing the bits of every copied byte.
    fn copy_forward_bit_reversed(pos: usize, n: usize, out: &mut Vec<u8>)
        requires
            pos < old(out)@.len(),
            n <= 1024,
        ensures
            final(out)@ == old(out)@ + layout::forward_copy_bit_reversed(old(out)@, pos as int, n as int),
    {
        let ghost out0 = out@;
        let ghost d = out0.len() - pos;
        let mut i: usize = 0;
        while i < n
            invariant
                i <= n <= 1024,
                pos < out0.len(),
                d == out0.len() - pos,
                out@ == out0 + layout::forward_copy_bit_reversed(out0, pos as int, i as int),
                out@.len() == out0.len() + i,
            decreases n - i,
        {
            let written = out.len();
            assert(pos + i < written);
            let b = out[pos + i];
            proof {
                if i < d {
                    vstd::arithmetic::div_mod::lemma_small_mod(i as nat, d as nat);
                    vstd::arithmetic::div_mod::lemma_basic_div(i as int, d);
                    assert((i as int) / d == 0);
                } else {
                    vstd::arithmetic::div_mod::lemma_mod_add_multiples_vanish(i - d, d);
                    vstd::arithmetic::div_mod::lemma_hoist_over_denominator(i - d, 1, d as nat);
                    layout::lemma_reverse_bits_involutive(out0[pos + (i - d) % d]);
                }
            }
            let r = reverse_byte(b);
            out.push(r);
            i += 1;
            assert(out@ =~= out0 + layout::forward_copy_bit_reversed(out0, pos as int, i as int));
        }
    }

    /// Decompresses the data at the front of `data`, leaving `data` just past
    /// it. `None` when the data is malformed: a command of type 7, data that
    /// ends inside a command, or a copy that reaches outside what has been
    /// written so far; `from_rom` reports such data as `MalformedRom`.
    fn decompress(data: &mut &[u8]) -> (r: Option<Vec<u8>>)
        ensures
            r is Some <==> layout::decompressed(old(data)@) is Some,
            r matches Some(out) ==> layout::decompressed(old(data)@) == Some((out@, final(data)@)),
    {
        let ghost input = data@;
        let mut out_buf: Vec<u8> = Vec::new();
        loop
            invariant
                input == old(data)@,
                layout::decode(input, Seq::empty()) == layout::decode(data@, out_buf@),
            decreases data@.len(),
        {
            let ghost before = data@;
            let ghost out_before = out_buf@;
            let first = Self::read_one(data);
            let byte = match first {
                Some(b) => b,
                None => {
                    assert(layout::decode(data@, out_buf@) == Some((out_buf@, data@)));
                    return Some(out_buf);
                },
            };
            if byte == STOP {
                return Some(out_buf);
            }
            assert(byte & 0x3 <= 3 && byte & 0x1F <= 31) by (bit_vector);
            let (cmd_type, length): (u8, usize) = if byte >> 5 == 7 {
                let next = match Self::read_one(data) {
                    Some(b) => b,
                    None => return None,
                };
                ((byte >> 2) & 0x7, 256 * (byte & 0x3) as usize + next as usize + 1)
            } else {
                (byte >> 5, (byte & 0x1F) as usize + 1)
            };
            assert(layout::command_header(before) == Some(
                (cmd_type, length as int, before.len() - data@.len()),
            ));
            assert(data@ =~= before.skip(before.len() - data@.len()));
            if !Self::run_command(cmd_type, length, data, &mut out_buf) {
                return None;
            }
            proof {
                layout::lemma_decode_command_consumes(before, out_before);
            }
        }
    }
}


// ---------------------------------------------------------------------------
// Where the tables lie, and what a record in them holds
// ---------------------------------------------------------------------------

/// The number of background entries.
pub const BG_ENTRIES: usize = 327;

/// The number of tile sets.
pub const TILESETS: usize = 103;

/// The number of arrangements.
pub const ARRANGEMENTS: usize = 103;

/// The number of palettes.
pub const PALETTES: usize = 114;

/// The number of distortion effects.
pub const DISTORTIONS: usize = 135;

/// Where the background entries (17 bytes each) start.
pub const BG_ENTRY_OFFSET: usize = 0xADEA1;

/// Where the table of tile set pointers (4 bytes each) starts.
pub const TILESET_PTR_OFFSET: usize = 0xAD9A1;

/// Where the table of arrangement pointers (4 bytes each) starts.
pub const ARRANGEMENT_PTR_OFFSET: usize = 0xADB3D;

/// Where the table of palette pointers (4 bytes each) starts.
pub const PALETTE_PTR_OFFSET: usize = 0xADCD9;

/// Where the distortion effects (17 bytes each) start.
pub const DISTORTION_OFFSET: usize = 0xAF908;

/// The background entry whose 17 bytes start at `o`.
pub open spec fn background_entry_at(rom: Seq<u8>, o: int) -> BackgroundEntry {
    BackgroundEntry {
        graphics_index: rom[o],
        palette_index: rom[o + 1],
        bpp: rom[o + 2],
        cycle_type: rom[o + 3],
        cycle1_start: rom[o + 4],
        cycle1_end: rom[o + 5],
        cycle2_start: rom[o + 6],
        cycle2_end: rom[o + 7],
        cycle_speed: rom[o + 8],
        movement: [rom[o + 9], rom[o + 10], rom[o + 11], rom[o + 12]],
        effects: [rom[o + 13], rom[o + 14], rom[o + 15], rom[o + 16]],
    }
}

/// The background table lies within the data.
pub open spec fn background_table_fits(rom: Seq<u8>) -> bool {
    BG_ENTRY_OFFSET + 17 * BG_ENTRIES <= rom.len()
}

/// The background entries of the data.
pub open spec fn background_entries(rom: Seq<u8>) -> Seq<BackgroundEntry> {
    Seq::new(BG_ENTRIES as nat, |i: int| background_entry_at(rom, BG_ENTRY_OFFSET + 17 * i))
}

/// The distortion effect whose 17 bytes start at `o`; byte 7 is unused.
pub open spec fn effect_at(rom: Seq<u8>, o: int) -> DistortionEffect {
    DistortionEffect {
        duration: layout::i16_le(rom[o], rom[o + 1]),
        distortion_type: rom[o + 2],
        frequency: layout::i16_le(rom[o + 3], rom[o + 4]),
        amplitude: layout::i16_le(rom[o + 5], rom[o + 6]),
        compression: layout::i16_le(rom[o + 8], rom[o + 9]),
        freq_accel: layout::i16_le(rom[o + 10], rom[o + 11]),
        amp_accel: layout::i16_le(rom[o + 12], rom[o + 13]),
        speed: rom[o + 14],
        comp_accel: layout::i16_le(rom[o + 15], rom[o + 16]),
    }
}

/// The effect table lies within the data.
pub open spec fn effect_table_fits(rom: Seq<u8>) -> bool {
    DISTORTION_OFFSET + 17 * DISTORTIONS <= rom.len()
}

/// The distortion effects of the data.
pub open spec fn effects_of(rom: Seq<u8>) -> Seq<DistortionEffect> {
    Seq::new(DISTORTIONS as nat, |i: int| effect_at(rom, DISTORTION_OFFSET + 17 * i))
}

/// The signed 16-bit number whose low byte is `lo` and high byte `hi`:
/// a high byte of 128 or more makes it negative.
pub open spec fn signed_pair(lo: u8, hi: u8) -> int {
    if hi >= 128 {
        lo + 256 * hi - 65536
    } else {
        lo + 256 * hi
    }
}

/// Effect `i` is read from its 17-byte record at
/// `DISTORTION_OFFSET + 17 * i`: duration from bytes 0 and 1, the type from
/// byte 2, frequency from 3 and 4, amplitude from 5 and 6, compression from
/// 8 and 9, the frequency and amplitude accelerations from 10 and 11 and
/// from 12 and 13, the speed from byte 14 and the compression acceleration
/// from 15 and 16; each pair is a little-endian signed number.
pub proof fn lemma_effect_record_layout(rom: Seq<u8>, i: int)
    requires
        effect_table_fits(rom),
        0 <= i < DISTORTIONS,
    ensures
        ({
            let o = DISTORTION_OFFSET + 17 * i;
            let e = effects_of(rom)[i];
            &&& e.duration == signed_pair(rom[o], rom[o + 1])
            &&& e.distortion_type == rom[o + 2]
            &&& e.frequency == signed_pair(rom[o + 3], rom[o + 4])
            &&& e.amplitude == signed_pair(rom[o + 5], rom[o + 6])
            &&& e.compression == signed_pair(rom[o + 8], rom[o + 9])
            &&& e.freq_accel == signed_pair(rom[o + 10], rom[o + 11])
            &&& e.amp_accel == signed_pair(rom[o + 12], rom[o + 13])
            &&& e.speed == rom[o + 14]
            &&& e.comp_accel == signed_pair(rom[o + 15], rom[o + 16])
        }),
{
}

/// Byte 7 of an effect's record is unused: two data that agree on the
/// other 16 bytes of record `i` decode to the same effect `i`.
pub proof fn lemma_effect_ignores_byte_seven(rom1: Seq<u8>, rom2: Seq<u8>, i: int)
    requires
        effect_table_fits(rom1),
        effect_table_fits(rom2),
        0 <= i < DISTORTIONS,
        forall|k: int|
            0 <= k < 17 && k != 7 ==> #[trigger] rom1[DISTORTION_OFFSET + 17 * i + k] == rom2[DISTORTION_OFFSET
                + 17 * i + k],
    ensures
        effects_of(rom1)[i] == effects_of(rom2)[i],
{
    assert(rom1[DISTORTION_OFFSET + 17 * i + 0] == rom2[DISTORTION_OFFSET + 17 * i + 0]);
    assert(rom1[DISTORTION_OFFSET + 17 * i + 1] == rom2[DISTORTION_OFFSET + 17 * i + 1]);
    assert(rom1[DISTORTION_OFFSET + 17 * i + 2] == rom2[DISTORTION_OFFSET + 17 * i + 2]);
    assert(rom1[DISTORTION_OFFSET + 17 * i + 3] == rom2[DISTORTION_OFFSET + 17 * i + 3]);
    assert(rom1[DISTORTION_OFFSET + 17 * i + 4] == rom2[DISTORTION_OFFSET + 17 * i + 4]);
    assert(rom1[DISTORTION_OFFSET + 17 * i + 5] == rom2[DISTORTION_OFFSET + 17 * i + 5]);
    assert(rom1[DISTORTION_OFFSET + 17 * i + 6] == rom2[DISTORTION_OFFSET + 17 * i + 6]);
    assert(rom1[DISTORTION_OFFSET + 17 * i + 8] == rom2[DISTORTION_OFFSET + 17 * i + 8]);
    assert(rom1[DISTORTION_OFFSET + 17 * i + 9] == rom2[DISTORTION_OFFSET + 17 * i + 9]);
    assert(rom1[DISTORTION_OFFSET + 17 * i + 10] == rom2[DISTORTION_OFFSET + 17 * i + 10]);
    assert(rom1[DISTORTION_OFFSET + 17 * i + 11] == rom2[DISTORTION_OFFSET + 17 * i + 11]);
    assert(rom1[DISTORTION_OFFSET + 17 * i + 12] == rom2[DISTORTION_OFFSET + 17 * i + 12]);
    assert(rom1[DISTORTION_OFFSET + 17 * i + 13] == rom2[DISTORTION_OFFSET + 17 * i + 13]);
    assert(rom1[DISTORTION_OFFSET + 17 * i + 14] == rom2[DISTORTION_OFFSET + 17 * i + 14]);
    assert(rom1[DISTORTION_OFFSET + 17 * i + 15] == rom2[DISTORTION_OFFSET + 17 * i + 15]);
    assert(rom1[DISTORTION_OFFSET + 17 * i + 16] == rom2[DISTORTION_OFFSET + 17 * i + 16]);
}

/// Entry `i` of the pointer table at `table`; `None` when it lies past the
/// end of the data.
pub open spec fn pointer_at(rom: Seq<u8>, table: int, i: int) -> Option<u32> {
    let o = table + 4 * i;
    if o + 4 <= rom.len() {
        Some(layout::u32_le(rom[o], rom[o + 1], rom[o + 2], rom[o + 3]))
    } else {
        None
    }
}

/// The position in the data of a console address: bank `0xC0` onwards maps
/// to the start of the data, `0x400000..0x600000` maps to itself, both after
/// a 512-byte header. `None` for any other address.
pub open spec fn snes_offset(addr: u32) -> Option<int> {
    if 0xC00000 <= addr < 0x1000000 {
        Some(addr - 0xC00000 + 0x200)
    } else if 0x400000 <= addr < 0x600000 {
        Some(addr + 0x200)
    } else {
        None
    }
}

/// For each palette index that a background uses, the bits per pixel of the
/// last background that uses it.
pub open spec fn palette_bpp_map(bgs: Seq<BackgroundEntry>) -> Map<u8, u8>
    decreases bgs.len(),
{
    if bgs.len() == 0 {
        Map::empty()
    } else {
        palette_bpp_map(bgs.drop_last()).insert(bgs.last().palette_index, bgs.last().bpp)
    }
}

/// For each graphics index that a background uses, the bits per pixel of
/// the last background that uses it.
pub open spec fn graphics_bpp_map(bgs: Seq<BackgroundEntry>) -> Map<u8, u8>
    decreases bgs.len(),
{
    if bgs.len() == 0 {
        Map::empty()
    } else {
        graphics_bpp_map(bgs.drop_last()).insert(bgs.last().graphics_index, bgs.last().bpp)
    }
}

/// The RGB color of a 15-bit color word, each 5-bit channel scaled by 8.
pub open spec fn color_of(raw: u16) -> [u8; 3] {
    [
        ((raw & 0x1F) * 8) as u8,
        (((raw >> 5u16) & 0x1F) * 8) as u8,
        (((raw >> 10u16) & 0x1F) * 8) as u8,
    ]
}

/// Palette `i`: `Some(None)` when no background uses it or its pointer is
/// null, `Some(Some(colors))` with `2^bpp` colors read at the pointer, and
/// `None` when its pointer or colors lie outside the data or the pointer is
/// not a valid address.
pub open spec fn palette_at(rom: Seq<u8>, bpps: Map<u8, u8>, i: int) -> Option<Option<Seq<[u8; 3]>>> {
    if !bpps.contains_key(i as u8) {
        Some(None)
    } else {
        match pointer_at(rom, PALETTE_PTR_OFFSET as int, i) {
            None => None,
            Some(addr) => if addr == 0 {
                Some(None)
            } else {
                match snes_offset(addr) {
                    None => None,
                    Some(off) => {
                        let n = vstd::arithmetic::power2::pow2(bpps[i as u8] as nat);
                        if off + 2 * n <= rom.len() {
                            Some(
                                Some(
                                    Seq::new(
                                        n,
                                        |k: int| color_of(layout::u16_le(rom[off + 2 * k], rom[off + 2 * k + 1])),
                                    ),
                                ),
                            )
                        } else {
                            None
                        }
                    },
                }
            },
        }
    }
}

/// The colors of an optional palette.
pub open spec fn palette_view(p: Option<Palette>) -> Option<Seq<[u8; 3]>> {
    match p {
        None => None,
        Some(p) => Some(p.colors@),
    }
}


impl SaturnBgData {
    /// The console address lies in one of the two mapped ranges.
    fn address_is_mapped(addr: u32) -> (r: bool)
        ensures
            r == snes_offset(addr) is Some,
    {
        (0xC00000u32 <= addr && addr < 0x1000000u32) || (0x400000 <= addr && addr < 0x600000)
    }

    /// The position in the data of a console address in one of the two
    /// mapped ranges.
    fn snes_to_offset(addr: u32) -> (r: usize)
        requires
            snes_offset(addr) is Some,
        ensures
            snes_offset(addr) == Some(r as int),
    {
        let addr = if 0xC00000u32 <= addr && addr < 0x1000000u32 {
            addr - 0xC00000
        } else {
            addr
        };
        (addr as usize) + 0x200
    }

    /// Entry `i` of the pointer table at `table`.
    fn read_pointer(rom: &[u8], table: usize, i: usize) -> (r: Option<u32>)
        requires
            table + 4 * i <= usize::MAX,
        ensures
            r == pointer_at(rom@, table as int, i as int),
    {
        let ptr_offset = table + i * 4;
        if ptr_offset > rom.len() {
            return None;
        }
        let (_, tail) = rom.split_at(ptr_offset);
        let mut ptr_data = tail;
        Self::read_u32_le(&mut ptr_data)
    }

    /// Decodes the background entries.
    fn get_background_entries(rom: &[u8]) -> (r: Option<Vec<BackgroundEntry>>)
        ensures
            r is Some <==> background_table_fits(rom@),
            r matches Some(v) ==> v@ == background_entries(rom@),
    {
        if rom.len() < BG_ENTRY_OFFSET + 17 * BG_ENTRIES {
            return None;
        }
        let mut entries: Vec<BackgroundEntry> = Vec::new();
        let mut i: usize = 0;
        while i < BG_ENTRIES
            invariant
                i <= BG_ENTRIES,
                background_table_fits(rom@),
                entries@ == background_entries(rom@).take(i as int),
            decreases BG_ENTRIES - i,
        {
            let o = BG_ENTRY_OFFSET + i * 17;
            let entry = BackgroundEntry {
                graphics_index: rom[o],
                palette_index: rom[o + 1],
                bpp: rom[o + 2],
                cycle_type: rom[o + 3],
                cycle1_start: rom[o + 4],
                cycle1_end: rom[o + 5],
                cycle2_start: rom[o + 6],
                cycle2_end: rom[o + 7],
                cycle_speed: rom[o + 8],
                movement: [rom[o + 9], rom[o + 10], rom[o + 11], rom[o + 12]],
                effects: [rom[o + 13], rom[o + 14], rom[o + 15], rom[o + 16]],
            };
            assert(entry == background_entry_at(rom@, o as int));
            entries.push(entry);
            i += 1;
            assert(entries@ =~= background_entries(rom@).take(i as int));
        }
        assert(entries@ =~= background_entries(rom@));
        Some(entries)
    }

    /// Decodes the distortion effects.
    fn get_effects(rom: &[u8]) -> (r: Option<Vec<DistortionEffect>>)
        ensures
            r is Some <==> effect_table_fits(rom@),
            r matches Some(v) ==> v@ == effects_of(rom@),
    {
        if rom.len() < DISTORTION_OFFSET + 17 * DISTORTIONS {
            return None;
        }
        let mut effects: Vec<DistortionEffect> = Vec::new();
        let mut i: usize = 0;
        while i < DISTORTIONS
            invariant
                i <= DISTORTIONS,
                effect_table_fits(rom@),
                effects@ == effects_of(rom@).take(i as int),
            decreases DISTORTIONS - i,
        {
            let start = DISTORTION_OFFSET + i * 17;
            let (_, tail) = rom.split_at(start);
            let mut data = tail;
            let duration = Self::read_i16_le(&mut data).unwrap();
            let distortion_type = Self::read_one(&mut data).unwrap();
            let frequency = Self::read_i16_le(&mut data).unwrap();
            let amplitude = Self::read_i16_le(&mut data).unwrap();
            // byte 7 is unused
            let _ = Self::read_one(&mut data);
            let compression = Self::read_i16_le(&mut data).unwrap();
            let freq_accel = Self::read_i16_le(&mut data).unwrap();
            let amp_accel = Self::read_i16_le(&mut data).unwrap();
            let speed = Self::read_one(&mut data).unwrap();
            let comp_accel = Self::read_i16_le(&mut data).unwrap();
            let entry = DistortionEffect {
                duration,
                distortion_type,
                frequency,
                amplitude,
                compression,
                freq_accel,
                amp_accel,
                speed,
                comp_accel,
            };
            assert(entry == effect_at(rom@, start as int));
            effects.push(entry);
            i += 1;
            assert(effects@ =~= effects_of(rom@).take(i as int));
        }
        assert(effects@ =~= effects_of(rom@));
        Some(effects)
    }
}


impl SaturnBgData {
    /// Maps each palette index used by a background to that background's
    /// bits per pixel; the last background wins.
    fn palette_bpps(backgrounds: &Vec<BackgroundEntry>) -> (m: HashMap<u8, u8>)
        ensures
            m@ == palette_bpp_map(backgrounds@),
    {
        broadcast use vstd::std_specs::hash::group_hash_axioms;

        let mut m: HashMap<u8, u8> = HashMap::new();
        let mut i: usize = 0;
        while i < backgrounds.len()
            invariant
                i <= backgrounds@.len(),
                m@ == palette_bpp_map(backgrounds@.take(i as int)),
            decreases backgrounds@.len() - i,
        {
            let e = &backgrounds[i];
            m.insert(e.palette_index, e.bpp);
            assert(backgrounds@.take(i + 1).drop_last() =~= backgrounds@.take(i as int));
            i += 1;
        }
        assert(backgrounds@.take(i as int) =~= backgrounds@);
        m
    }

    /// Maps each graphics index used by a background to that background's
    /// bits per pixel; the last background wins.
    fn graphics_bpps(backgrounds: &Vec<BackgroundEntry>) -> (m: HashMap<u8, u8>)
        ensures
            m@ == graphics_bpp_map(backgrounds@),
    {
        broadcast use vstd::std_specs::hash::group_hash_axioms;

        let mut m: HashMap<u8, u8> = HashMap::new();
        let mut i: usize = 0;
        while i < backgrounds.len()
            invariant
                i <= backgrounds@.len(),
                m@ == graphics_bpp_map(backgrounds@.take(i as int)),
            decreases backgrounds@.len() - i,
        {
            let e = &backgrounds[i];
            m.insert(e.graphics_index, e.bpp);
            assert(backgrounds@.take(i + 1).drop_last() =~= backgrounds@.take(i as int));
            i += 1;
        }
        assert(backgrounds@.take(i as int) =~= backgrounds@);
        m
    }

    /// `2^e`, or `None` when it is more than `limit`.
    fn power_of_two_within(e: u8, limit: usize) -> (r: Option<usize>)
        ensures
            r is Some <==> vstd::arithmetic::power2::pow2(e as nat) <= limit,
            r matches Some(n) ==> n == vstd::arithmetic::power2::pow2(e as nat),
    {
        broadcast use vstd::arithmetic::power2::lemma_pow2_unfold, vstd::arithmetic::power2::lemma_pow2_pos;

        let mut n: usize = 1;
        let mut k: u8 = 0;
        proof {
            vstd::arithmetic::power2::lemma2_to64();
        }
        if n > limit {
            return None;
        }
        while k < e
            invariant
                k <= e,
                n == vstd::arithmetic::power2::pow2(k as nat),
                n <= limit,
            decreases e - k,
        {
            proof {
                vstd::arithmetic::power2::lemma_pow2_unfold((k + 1) as nat);
            }
            if n > limit / 2 {
                proof {
                    assert(vstd::arithmetic::power2::pow2((k + 1) as nat) > limit);
                    if k + 1 < e {
                        vstd::arithmetic::power2::lemma_pow2_strictly_increases((k + 1) as nat, e as nat);
                    }
                }
                return None;
            }
            n = n * 2;
            k = k + 1;
        }
        Some(n)
    }

    /// Decodes palette `i`; the outer `None` when it is malformed.
    fn get_palette_at(rom: &[u8], bpp_map: &HashMap<u8, u8>, i: usize) -> (r: Option<Option<Palette>>)
        requires
            i < PALETTES,
        ensures
            r is Some <==> palette_at(rom@, bpp_map@, i as int) is Some,
            r matches Some(p) ==> palette_at(rom@, bpp_map@, i as int) == Some(palette_view(p)),
    {
        broadcast use vstd::std_specs::hash::group_hash_axioms;

        let bpp = match bpp_map.get(&(i as u8)) {
            Some(b) => *b,
            None => return Some(None),
        };
        let addr = match Self::read_pointer(rom, PALETTE_PTR_OFFSET, i) {
            Some(a) => a,
            None => return None,
        };
        if addr == 0 {
            return Some(None);
        }
        if !Self::address_is_mapped(addr) {
            return None;
        }
        let offset = Self::snes_to_offset(addr);
        if offset > rom.len() {
            proof {
                vstd::arithmetic::power2::lemma_pow2_pos(bpp as nat);
            }
            return None;
        }
        let num_colors = match Self::power_of_two_within(bpp, (rom.len() - offset) / 2) {
            Some(n) => n,
            None => return None,
        };
        let ghost pal = Seq::new(
            num_colors as nat,
            |k: int| color_of(layout::u16_le(rom@[offset + 2 * k], rom@[offset + 2 * k + 1])),
        );
        let (_, tail) = rom.split_at(offset);
        let mut pal_data = tail;
        let mut colors: Vec<[u8; 3]> = Vec::new();
        let mut k: usize = 0;
        while k < num_colors
            invariant
                k <= num_colors,
                offset + 2 * num_colors <= rom@.len(),
                pal_data@ == rom@.skip(offset + 2 * k),
                pal.len() == num_colors,
                pal == Seq::new(
                    num_colors as nat,
                    |k: int| color_of(layout::u16_le(rom@[offset + 2 * k], rom@[offset + 2 * k + 1])),
                ),
                colors@ == pal.take(k as int),
            decreases num_colors - k,
        {
            let raw = Self::read_u16_le(&mut pal_data).unwrap();
            assert(raw & 0x1F <= 0x1F && (raw >> 5u16) & 0x1F <= 0x1F && (raw >> 10u16) & 0x1F <= 0x1F)
                by (bit_vector);
            let r = ((raw & 0x1F) * 8) as u8;
            let g = (((raw >> 5) & 0x1F) * 8) as u8;
            let b = (((raw >> 10) & 0x1F) * 8) as u8;
            colors.push([r, g, b]);
            k += 1;
            assert(pal_data@ =~= rom@.skip(offset + 2 * k));
            assert(colors@ =~= pal.take(k as int));
        }
        assert(colors@ =~= pal);
        Some(Some(Palette { colors }))
    }
}


// ---------------------------------------------------------------------------
// Tile sets
// ---------------------------------------------------------------------------

/// Where, in a tile whose bytes start at `base`, the byte with bit plane
/// `bp` of row `y` lies: rows take two bytes, planes come in pairs, and each
/// pair of planes takes 16 bytes.
pub open spec fn plane_byte_offset(base: int, y: int, bp: int) -> int {
    base + 2 * y + 16 * (bp / 2) + bp % 2
}

/// The palette index of pixel (`x`, `y`) of the tile whose bytes start at
/// `base`, taking bit planes `0..planes`: bit `bp` of the index is bit
/// `7 - x` of plane `bp`'s byte for row `y`.
pub open spec fn tile_pixel(data: Seq<u8>, base: int, planes: nat, y: int, x: int) -> u8
    decreases planes,
{
    if planes == 0 {
        0
    } else {
        let bp = planes - 1;
        tile_pixel(data, base, bp as nat, y, x) | (((data[plane_byte_offset(base, y, bp)] >> ((7
            - x) as u8)) & 1) << (bp as u8))
    }
}

/// The number of whole tiles in `len` bytes of `bpp` bits per pixel.
pub open spec fn tile_count(len: int, bpp: u8) -> int {
    len / (8 * bpp as int)
}

/// The last byte that decoding `n` tiles of `bpp` bits per pixel reads lies
/// within `len` bytes (there is none when `n` is 0).
pub open spec fn tiles_fit(len: int, bpp: u8, n: int) -> bool {
    n == 0 || plane_byte_offset(8 * bpp * (n - 1), 7, bpp - 1) < len
}

/// The tiles of `data` can be decoded at `bpp` bits per pixel: `bpp` is not 0,
/// and, when there is a tile, at most 8 and every byte read lies in `data`.
pub open spec fn tiles_decodable(data: Seq<u8>, bpp: u8) -> bool {
    &&& bpp != 0
    &&& tile_count(data.len() as int, bpp) > 0 ==> bpp <= 8 && tiles_fit(
        data.len() as int,
        bpp,
        tile_count(data.len() as int, bpp),
    )
}

/// `ts` holds the tiles of `data` at `bpp` bits per pixel.
pub open spec fn tileset_matches(ts: TileSet, data: Seq<u8>, bpp: u8) -> bool {
    &&& ts.tiles@.len() == tile_count(data.len() as int, bpp)
    &&& forall|t: int, y: int, x: int|
        0 <= t < ts.tiles@.len() && 0 <= y < 8 && 0 <= x < 8 ==> #[trigger] ts.tiles@[t][y][x]
            == tile_pixel(data, 8 * bpp * t, bpp as nat, y, x)
}

/// The data of tile set `i` and its bits per pixel: `Some(None)` when no
/// background uses it or its pointer is null, `None` when it is malformed.
pub open spec fn tileset_source(rom: Seq<u8>, bpps: Map<u8, u8>, i: int) -> Option<
    Option<(Seq<u8>, u8)>,
> {
    if !bpps.contains_key(i as u8) {
        Some(None)
    } else {
        match pointer_at(rom, TILESET_PTR_OFFSET as int, i) {
            None => None,
            Some(addr) => if addr == 0 {
                Some(None)
            } else {
                match snes_offset(addr) {
                    None => None,
                    Some(off) => if off > rom.len() {
                        None
                    } else {
                        match layout::decompressed(rom.skip(off)) {
                            None => None,
                            Some((data, _)) => if tiles_decodable(data, bpps[i as u8]) {
                                Some(Some((data, bpps[i as u8])))
                            } else {
                                None
                            },
                        }
                    },
                }
            },
        }
    }
}

/// `ts` is the tile set that `src` describes.
pub open spec fn tileset_view_matches(ts: Option<TileSet>, src: Option<(Seq<u8>, u8)>) -> bool {
    match (ts, src) {
        (None, None) => true,
        (Some(t), Some((data, bpp))) => tileset_matches(t, data, bpp),
        _ => false,
    }
}

// ---------------------------------------------------------------------------
// Arrangements
// ---------------------------------------------------------------------------

/// The tile reference held in a 16-bit word.
pub open spec fn entry_of(raw: u16) -> ArrangementEntry {
    ArrangementEntry {
        tile_index: raw & 0x3FF,
        sub_palette: ((raw >> 10u16) & 0x7) as u8,
        h_flip: (raw & 0x4000) != 0,
        v_flip: (raw & 0x8000) != 0,
    }
}

/// The tile reference with every field zero.
pub open spec fn blank_entry() -> ArrangementEntry {
    ArrangementEntry { tile_index: 0, sub_palette: 0, h_flip: false, v_flip: false }
}

/// The data of arrangement `i`: `Some(None)` when its pointer is null,
/// `None` when it is malformed or holds fewer than 32x32 words.
pub open spec fn arrangement_source(rom: Seq<u8>, i: int) -> Option<Option<Seq<u8>>> {
    match pointer_at(rom, ARRANGEMENT_PTR_OFFSET as int, i) {
        None => None,
        Some(addr) => if addr == 0 {
            Some(None)
        } else {
            match snes_offset(addr) {
                None => None,
                Some(off) => if off > rom.len() {
                    None
                } else {
                    match layout::decompressed(rom.skip(off)) {
                        None => None,
                        Some((data, _)) => if data.len() >= 2048 {
                            Some(Some(data))
                        } else {
                            None
                        },
                    }
                },
            }
        },
    }
}

/// The tile reference at column `x` of row `y` described by `src`.
pub open spec fn arrangement_entry(src: Option<Seq<u8>>, y: int, x: int) -> ArrangementEntry {
    match src {
        None => blank_entry(),
        Some(data) => {
            let base = 2 * (32 * y + x);
            entry_of(layout::u16_le(data[base], data[base + 1]))
        },
    }
}

/// `a` is the arrangement that `src` describes.
pub open spec fn arrangement_matches(a: Arrangement, src: Option<Seq<u8>>) -> bool {
    forall|y: int, x: int|
        0 <= y < 32 && 0 <= x < 32 ==> #[trigger] a.grid[y][x] == arrangement_entry(src, y, x)
}

impl Default for ArrangementEntry {
    fn default() -> (e: Self)
        ensures
            e == blank_entry(),
    {
        ArrangementEntry { tile_index: 0, sub_palette: 0, h_flip: false, v_flip: false }
    }
}

impl SaturnBgData {
    /// Decodes the tiles of `data` at `bpp` bits per pixel.
    fn decode_tiles(data: &Vec<u8>, bpp: u8) -> (r: Option<TileSet>)
        ensures
            r is Some <==> tiles_decodable(data@, bpp),
            r matches Some(ts) ==> tileset_matches(ts, data@, bpp),
    {
        if bpp == 0 {
            return None;
        }
        let tile_bytes = 8 * bpp as usize;
        let dlen = data.len();
        let num_tiles = dlen / tile_bytes;
        proof {
            vstd::arithmetic::div_mod::lemma_fundamental_div_mod(data@.len() as int, tile_bytes as int);
            assert(num_tiles * tile_bytes <= data@.len()) by (nonlinear_arith)
                requires
                    data@.len() == tile_bytes * (data@.len() as int / tile_bytes as int) + (data@.len() as int % tile_bytes as int),
                    num_tiles == data@.len() as int / tile_bytes as int,
                    0 <= data@.len() as int % tile_bytes as int;
        }
        if num_tiles > 0 {
            if bpp > 8 {
                return None;
            }
            assert(tile_bytes * (num_tiles - 1) <= data@.len()) by (nonlinear_arith)
                requires num_tiles * tile_bytes <= data@.len(), num_tiles > 0;
            let last = tile_bytes * (num_tiles - 1);
            assert(last == 8 * bpp * (num_tiles - 1)) by (nonlinear_arith)
                requires last == tile_bytes * (num_tiles - 1), tile_bytes == 8 * bpp;
            assert(last + tile_bytes <= data@.len()) by (nonlinear_arith)
                requires last == tile_bytes * (num_tiles - 1), num_tiles * tile_bytes <= data@.len(), num_tiles > 0;
            let bp_last = (bpp - 1) as usize;
            if 14 + 16 * (bp_last / 2) + bp_last % 2 >= data.len() - last {
                return None;
            }
        }
        let ghost len = dlen as int;
        let mut tiles: Vec<[[u8; 8]; 8]> = Vec::new();
        let mut t: usize = 0;
        while t < num_tiles
            invariant
                1 <= bpp,
                num_tiles > 0 ==> bpp <= 8,
                tile_bytes == 8 * bpp,
                num_tiles == tile_count(len, bpp),
                len == data@.len(),
                dlen == len,
                tiles_fit(len, bpp, num_tiles as int),
                t <= num_tiles,
                tiles@.len() == t,
                forall|tt: int, y: int, x: int|
                    0 <= tt < t && 0 <= y < 8 && 0 <= x < 8 ==> #[trigger] tiles@[tt][y][x]
                        == tile_pixel(data@, 8 * bpp * tt, bpp as nat, y, x),
            decreases num_tiles - t,
        {
            assert(t * tile_bytes <= 8 * bpp * (num_tiles - 1)) by (nonlinear_arith)
                requires tile_bytes == 8 * bpp, t <= num_tiles - 1;
            assert(8 * bpp * (num_tiles - 1) < dlen);
            let base = t * tile_bytes;
            assert(base == 8 * bpp * t) by (nonlinear_arith)
                requires base == t * tile_bytes, tile_bytes == 8 * bpp;
            let mut tile = [[0u8; 8]; 8];
            let mut y: usize = 0;
            while y < 8
                invariant
                    1 <= bpp <= 8,
                    len == data@.len(),
                    dlen == len,
                    base <= 8 * bpp * (num_tiles - 1),
                    num_tiles > 0,
                    tiles_fit(len, bpp, num_tiles as int),
                    y <= 8,
                    forall|yy: int, x: int|
                        0 <= yy < y && 0 <= x < 8 ==> #[trigger] tile[yy][x] == tile_pixel(
                            data@,
                            base as int,
                            bpp as nat,
                            yy,
                            x,
                        ),
                decreases 8 - y,
            {
                let mut row = [0u8; 8];
                let mut x: usize = 0;
                while x < 8
                    invariant
                        1 <= bpp <= 8,
                        len == data@.len(),
                        dlen == len,
                        base <= 8 * bpp * (num_tiles - 1),
                        num_tiles > 0,
                        tiles_fit(len, bpp, num_tiles as int),
                        y < 8,
                        x <= 8,
                        forall|xx: int|
                            0 <= xx < x ==> #[trigger] row[xx] == tile_pixel(
                                data@,
                                base as int,
                                bpp as nat,
                                y as int,
                                xx,
                            ),
                    decreases 8 - x,
                {
                    let mut color = 0u8;
                    let mut bp: u8 = 0;
                    while bp < bpp
                        invariant
                            1 <= bpp <= 8,
                            len == data@.len(),
                            dlen == len,
                            base <= 8 * bpp * (num_tiles - 1),
                            num_tiles > 0,
                            tiles_fit(len, bpp, num_tiles as int),
                            y < 8,
                            x < 8,
                            bp <= bpp,
                            color == tile_pixel(data@, base as int, bp as nat, y as int, x as int),
                        decreases bpp - bp,
                    {
                        let half_bp = bp / 2;
                        assert(base + y * 2 + half_bp as usize * 16 + (bp as usize % 2) <= plane_byte_offset(
                            8 * bpp * (num_tiles - 1),
                            7,
                            bpp - 1,
                        ));
                        let idx = base + y * 2 + half_bp as usize * 16 + (bp as usize % 2);
                        assert(idx <= plane_byte_offset(8 * bpp * (num_tiles - 1), 7, bpp - 1));
                        let byte = data[idx];
                        color = color | (((byte >> (7 - x as u8)) & 1) << bp);
                        bp += 1;
                    }
                    row[x] = color;
                    x += 1;
                }
                tile[y] = row;
                y += 1;
            }
            let ghost old_tiles = tiles@;
            tiles.push(tile);
            assert forall|tt: int, y: int, x: int|
                0 <= tt < t + 1 && 0 <= y < 8 && 0 <= x < 8 implies #[trigger] tiles@[tt][y][x]
                    == tile_pixel(data@, 8 * bpp * tt, bpp as nat, y, x) by {
                if tt < t {
                    assert(tiles@[tt] == old_tiles[tt]);
                } else {
                    assert(tiles@[tt] == tile);
                }
            }
            t += 1;
        }
        Some(TileSet { tiles })
    }
}


impl SaturnBgData {
    /// Decompresses the data that starts at `offset`; `None` when `offset`
    /// lies past the end or the data is malformed.
    fn decompress_at(rom: &[u8], offset: usize) -> (r: Option<Vec<u8>>)
        ensures
            r is Some <==> offset <= rom@.len() && layout::decompressed(rom@.skip(offset as int)) is Some,
            r matches Some(d) ==> layout::decompressed(rom@.skip(offset as int)).unwrap().0 == d@,
    {
        if offset > rom.len() {
            return None;
        }
        let (_, tail) = rom.split_at(offset);
        let mut target_data = tail;
        assert(target_data@ =~= rom@.skip(offset as int));
        Self::decompress(&mut target_data)
    }

    /// Decodes tile set `i`; the outer `None` when it is malformed.
    fn get_tileset_at(rom: &[u8], bpp_map: &HashMap<u8, u8>, i: usize) -> (r: Option<Option<TileSet>>)
        requires
            i < TILESETS,
        ensures
            r is Some <==> tileset_source(rom@, bpp_map@, i as int) is Some,
            r matches Some(ts) ==> tileset_view_matches(ts, tileset_source(rom@, bpp_map@, i as int).unwrap()),
    {
        broadcast use vstd::std_specs::hash::group_hash_axioms;

        let bpp = match bpp_map.get(&(i as u8)) {
            Some(b) => *b,
            None => return Some(None),
        };
        let addr = match Self::read_pointer(rom, TILESET_PTR_OFFSET, i) {
            Some(a) => a,
            None => return None,
        };
        if addr == 0 {
            return Some(None);
        }
        if !Self::address_is_mapped(addr) {
            return None;
        }
        let offset = Self::snes_to_offset(addr);
        let decompressed_data = match Self::decompress_at(rom, offset) {
            Some(d) => d,
            None => return None,
        };
        match Self::decode_tiles(&decompressed_data, bpp) {
            Some(ts) => Some(Some(ts)),
            None => None,
        }
    }

    /// Decodes the 32x32 tile references of `data`.
    fn decode_arrangement(data: &Vec<u8>) -> (a: Arrangement)
        requires
            data@.len() >= 2048,
        ensures
            arrangement_matches(a, Some(data@)),
    {
        let blank = ArrangementEntry::default();
        let mut grid = [[blank; 32]; 32];
        let mut y: usize = 0;
        while y < 32
            invariant
                y <= 32,
                data@.len() >= 2048,
                forall|yy: int, x: int|
                    0 <= yy < y && 0 <= x < 32 ==> #[trigger] grid[yy][x] == arrangement_entry(
                        Some(data@),
                        yy,
                        x,
                    ),
            decreases 32 - y,
        {
            let mut row = [blank; 32];
            let mut x: usize = 0;
            while x < 32
                invariant
                    x <= 32,
                    y < 32,
                    data@.len() >= 2048,
                    forall|xx: int|
                        0 <= xx < x ==> #[trigger] row[xx] == arrangement_entry(
                            Some(data@),
                            y as int,
                            xx,
                        ),
                decreases 32 - x,
            {
                let base = (y * 32 + x) * 2;
                let raw: u16 = data[base] as u16 + 256 * data[base + 1] as u16;
                let entry = ArrangementEntry {
                    tile_index: raw & 0x3FF,
                    sub_palette: ((raw >> 10) & 0x7) as u8,
                    h_flip: (raw & 0x4000) != 0,
                    v_flip: (raw & 0x8000) != 0,
                };
                row[x] = entry;
                x += 1;
            }
            grid[y] = row;
            y += 1;
        }
        Arrangement { grid }
    }

    /// Decodes arrangement `i`; `None` when it is malformed.
    fn get_arrangement_at(rom: &[u8], i: usize) -> (r: Option<Arrangement>)
        requires
            i < ARRANGEMENTS,
        ensures
            r is Some <==> arrangement_source(rom@, i as int) is Some,
            r matches Some(a) ==> arrangement_matches(a, arrangement_source(rom@, i as int).unwrap()),
    {
        let addr = match Self::read_pointer(rom, ARRANGEMENT_PTR_OFFSET, i) {
            Some(a) => a,
            None => return None,
        };
        if addr == 0 {
            let blank = ArrangementEntry::default();
            return Some(Arrangement { grid: [[blank; 32]; 32] });
        }
        if !Self::address_is_mapped(addr) {
            return None;
        }
        let offset = Self::snes_to_offset(addr);
        let decompressed_data = match Self::decompress_at(rom, offset) {
            Some(d) => d,
            None => return None,
        };
        if decompressed_data.len() < 2048 {
            return None;
        }
        Some(Self::decode_arrangement(&decompressed_data))
    }
}


// ---------------------------------------------------------------------------
// The whole data
// ---------------------------------------------------------------------------

/// The data is not laid out as the decoder expects: a table, pointer or
/// color lies outside it, a pointer is not a valid address, compressed data
/// is malformed, or tiles or an arrangement cannot be read from it.
#[derive(Clone, Copy, Debug, PartialEq, Eq, Structural)]
pub struct MalformedRom;

/// Every palette of the data can be decoded.
pub open spec fn palettes_valid(rom: Seq<u8>) -> bool {
    forall|i: int|
        0 <= i < PALETTES ==> #[trigger] palette_at(
            rom,
            palette_bpp_map(background_entries(rom)),
            i,
        ) is Some
}

/// Every tile set of the data can be decoded.
pub open spec fn tilesets_valid(rom: Seq<u8>) -> bool {
    forall|i: int|
        0 <= i < TILESETS ==> #[trigger] tileset_source(
            rom,
            graphics_bpp_map(background_entries(rom)),
            i,
        ) is Some
}

/// Every arrangement of the data can be decoded.
pub open spec fn arrangements_valid(rom: Seq<u8>) -> bool {
    forall|i: int| 0 <= i < ARRANGEMENTS ==> #[trigger] arrangement_source(rom, i) is Some
}

/// The data can be decoded as a whole.
pub open spec fn rom_is_valid(rom: Seq<u8>) -> bool {
    &&& background_table_fits(rom)
    &&& palettes_valid(rom)
    &&& tilesets_valid(rom)
    &&& arrangements_valid(rom)
    &&& effect_table_fits(rom)
}

impl SaturnBgData {
    /// `self` holds what the data `rom` describes.
    pub open spec fn decodes(self, rom: Seq<u8>) -> bool {
        let bgs = background_entries(rom);
        &&& self.backgrounds@ == bgs
        &&& self.effects@ == effects_of(rom)
        &&& self.palettes@.len() == PALETTES
        &&& forall|i: int|
            0 <= i < PALETTES ==> palette_at(rom, palette_bpp_map(bgs), i) == Some(
                palette_view(#[trigger] self.palettes@[i]),
            )
        &&& self.tiles@.len() == TILESETS
        &&& forall|i: int|
            0 <= i < TILESETS ==> tileset_view_matches(
                #[trigger] self.tiles@[i],
                tileset_source(rom, graphics_bpp_map(bgs), i).unwrap(),
            )
        &&& self.arrangements@.len() == ARRANGEMENTS
        &&& forall|i: int|
            0 <= i < ARRANGEMENTS ==> arrangement_matches(
                #[trigger] self.arrangements@[i],
                arrangement_source(rom, i).unwrap(),
            )
    }

    /// Decodes all palettes.
    fn get_palettes(rom: &[u8], bpp_map: &HashMap<u8, u8>) -> (r: Option<Vec<Option<Palette>>>)
        ensures
            r is Some <==> forall|i: int|
                0 <= i < PALETTES ==> #[trigger] palette_at(rom@, bpp_map@, i) is Some,
            r matches Some(v) ==> v@.len() == PALETTES && forall|i: int|
                0 <= i < PALETTES ==> palette_at(rom@, bpp_map@, i) == Some(
                    palette_view(#[trigger] v@[i]),
                ),
    {
        let mut palettes: Vec<Option<Palette>> = Vec::new();
        let mut i: usize = 0;
        while i < PALETTES
            invariant
                i <= PALETTES,
                palettes@.len() == i,
                forall|j: int| 0 <= j < i ==> #[trigger] palette_at(rom@, bpp_map@, j) is Some,
                forall|j: int|
                    0 <= j < i ==> palette_at(rom@, bpp_map@, j) == Some(
                        palette_view(#[trigger] palettes@[j]),
                    ),
            decreases PALETTES - i,
        {
            match Self::get_palette_at(rom, bpp_map, i) {
                Some(p) => palettes.push(p),
                None => return None,
            }
            i += 1;
        }
        Some(palettes)
    }

    /// Decodes all tile sets.
    fn get_tilesets(rom: &[u8], bpp_map: &HashMap<u8, u8>) -> (r: Option<Vec<Option<TileSet>>>)
        ensures
            r is Some <==> forall|i: int|
                0 <= i < TILESETS ==> #[trigger] tileset_source(rom@, bpp_map@, i) is Some,
            r matches Some(v) ==> v@.len() == TILESETS && forall|i: int|
                0 <= i < TILESETS ==> tileset_view_matches(
                    #[trigger] v@[i],
                    tileset_source(rom@, bpp_map@, i).unwrap(),
                ),
    {
        let mut tilesets: Vec<Option<TileSet>> = Vec::new();
        let mut i: usize = 0;
        while i < TILESETS
            invariant
                i <= TILESETS,
                tilesets@.len() == i,
                forall|j: int| 0 <= j < i ==> #[trigger] tileset_source(rom@, bpp_map@, j) is Some,
                forall|j: int|
                    0 <= j < i ==> tileset_view_matches(
                        #[trigger] tilesets@[j],
                        tileset_source(rom@, bpp_map@, j).unwrap(),
                    ),
            decreases TILESETS - i,
        {
            match Self::get_tileset_at(rom, bpp_map, i) {
                Some(t) => tilesets.push(t),
                None => return None,
            }
            i += 1;
        }
        Some(tilesets)
    }

    /// Decodes all arrangements.
    fn get_arrangements(rom: &[u8]) -> (r: Option<Vec<Arrangement>>)
        ensures
            r is Some <==> arrangements_valid(rom@),
            r matches Some(v) ==> v@.len() == ARRANGEMENTS && forall|i: int|
                0 <= i < ARRANGEMENTS ==> arrangement_matches(
                    #[trigger] v@[i],
                    arrangement_source(rom@, i).unwrap(),
                ),
    {
        let mut arrangements: Vec<Arrangement> = Vec::new();
        let mut i: usize = 0;
        while i < ARRANGEMENTS
            invariant
                i <= ARRANGEMENTS,
                arrangements@.len() == i,
                forall|j: int| 0 <= j < i ==> #[trigger] arrangement_source(rom@, j) is Some,
                forall|j: int|
                    0 <= j < i ==> arrangement_matches(
                        #[trigger] arrangements@[j],
                        arrangement_source(rom@, j).unwrap(),
                    ),
            decreases ARRANGEMENTS - i,
        {
            match Self::get_arrangement_at(rom, i) {
                Some(a) => arrangements.push(a),
                None => return None,
            }
            i += 1;
        }
        Some(arrangements)
    }

    /// Decodes the battle backgrounds of `rom`. Data that is not laid out as
    /// the decoder expects (see `rom_is_valid`: a table past its end, a
    /// pointer outside the mapped ranges, compressed data with a command of
    /// type 7, data ending inside a command, a copy reaching outside what
    /// has been written) is reported as `MalformedRom` instead of stopping
    /// the program; `new` requires valid data and never fails.
    pub fn from_rom(rom: &[u8]) -> (r: Result<Self, MalformedRom>)
        ensures
            r is Ok <==> rom_is_valid(rom@),
            r matches Ok(d) ==> d.decodes(rom@),
    {
        let backgrounds = match Self::get_background_entries(rom) {
            Some(b) => b,
            None => return Err(MalformedRom),
        };
        let bpp_palette_map = Self::palette_bpps(&backgrounds);
        let bpp_graphics_map = Self::graphics_bpps(&backgrounds);

        let palettes = match Self::get_palettes(rom, &bpp_palette_map) {
            Some(p) => p,
            None => return Err(MalformedRom),
        };
        let tiles = match Self::get_tilesets(rom, &bpp_graphics_map) {
            Some(t) => t,
            None => return Err(MalformedRom),
        };
        let arrangements = match Self::get_arrangements(rom) {
            Some(a) => a,
            None => return Err(MalformedRom),
        };
        let effects = match Self::get_effects(rom) {
            Some(e) => e,
            None => return Err(MalformedRom),
        };
        Ok(Self { tiles, arrangements, palettes, backgrounds, effects })
    }
}


// ---------------------------------------------------------------------------
// Looking things up in the decoded data
// ---------------------------------------------------------------------------

/// The effect leaves the background undistorted: every parameter but the
/// duration and the type is zero.
pub open spec fn effect_is_empty(e: DistortionEffect) -> bool {
    &&& e.frequency == 0
    &&& e.amplitude == 0
    &&& e.compression == 0
    &&& e.freq_accel == 0
    &&& e.amp_accel == 0
    &&& e.speed == 0
    &&& e.comp_accel == 0
}

impl Default for DistortionEffect {
    fn default() -> (e: Self)
        ensures
            e == (DistortionEffect {
                duration: 0,
                distortion_type: 0,
                frequency: 0,
                amplitude: 0,
                compression: 0,
                freq_accel: 0,
                amp_accel: 0,
                speed: 0,
                comp_accel: 0,
            }),
    {
        DistortionEffect {
            duration: 0,
            distortion_type: 0,
            frequency: 0,
            amplitude: 0,
            compression: 0,
            freq_accel: 0,
            amp_accel: 0,
            speed: 0,
            comp_accel: 0,
        }
    }
}

impl DistortionEffect {
    pub const HORIZONTAL: u8 = 1;

    pub const INTERLACE: u8 = 2;

    pub const VERTICAL: u8 = 3;

    /// The effect leaves the background undistorted.
    pub fn is_empty(&self) -> (r: bool)
        ensures
            r == effect_is_empty(*self),
    {
        self.frequency == 0 && self.amplitude == 0 && self.compression == 0 && self.freq_accel == 0
            && self.amp_accel == 0 && self.speed == 0 && self.comp_accel == 0
    }
}

impl SaturnBgData {
    /// Backgrounds that are pure black screens, or solid unchanging colors.
    pub const BLACKLISTED: [usize; 20] = [
        0,
        33,
        191,
        192,
        193,
        194,
        235,
        236,
        237,
        238,
        239,
        241,
        242,
        244,
        245,
        247,
        253,
        254,
        265,
        279,
    ];

    /// The backgrounds of the Giygas fight.
    pub const GIYGAS: [usize; 17] = [
        220,
        221,
        222,
        223,
        224,
        225,
        226,
        227,
        248,
        249,
        250,
        251,
        252,
        295,
        296,
        298,
        301,
    ];

    /// Decodes the battle backgrounds of `rom`, which must be valid.
    pub fn new(rom: &[u8]) -> (d: Self)
        requires
            rom_is_valid(rom@),
        ensures
            d.decodes(rom@),
            d.backgrounds@.len() == BG_ENTRIES,
            d.effects@.len() == DISTORTIONS,
    {
        Self::from_rom(rom).unwrap()
    }

    /// Background `bg_index` exists and names a tile set and a palette that
    /// exist.
    pub open spec fn background_in_range(self, bg_index: int) -> bool {
        &&& 0 <= bg_index < self.backgrounds@.len()
        &&& self.backgrounds@[bg_index].graphics_index < self.tiles@.len()
        &&& self.backgrounds@[bg_index].palette_index < self.palettes@.len()
    }

    /// The tile set and the palette of background `bg_index` are both present.
    pub open spec fn spec_index_is_valid(self, bg_index: int) -> bool {
        &&& self.tiles@[self.backgrounds@[bg_index].graphics_index as int] is Some
        &&& self.palettes@[self.backgrounds@[bg_index].palette_index as int] is Some
    }

    /// The tile set and the palette of background `bg_index` are both present.
    pub fn index_is_valid(&self, bg_index: usize) -> (r: bool)
        requires
            self.background_in_range(bg_index as int),
        ensures
            r == self.spec_index_is_valid(bg_index as int),
    {
        let bg = &self.backgrounds[bg_index];
        self.tiles[bg.graphics_index as usize].is_some() && self.palettes[bg.palette_index as usize].is_some()
    }

    /// Background `i` is offered: it is neither blacklisted nor, when
    /// `no_giygas` holds, from the Giygas fight, and its graphics are present.
    pub open spec fn offered(self, no_giygas: bool, i: int) -> bool {
        &&& !Self::BLACKLISTED@.contains(i as usize)
        &&& !(no_giygas && Self::GIYGAS@.contains(i as usize))
        &&& self.spec_index_is_valid(i)
    }

    /// The offered backgrounds among `0..n`, in increasing order.
    pub open spec fn offered_prefix(self, no_giygas: bool, n: int) -> Seq<usize>
        decreases n,
    {
        if n <= 0 {
            Seq::empty()
        } else if self.offered(no_giygas, n - 1) {
            self.offered_prefix(no_giygas, n - 1).push((n - 1) as usize)
        } else {
            self.offered_prefix(no_giygas, n - 1)
        }
    }

    /// `x` is one of `list`.
    fn list_contains(list: &[usize], x: usize) -> (r: bool)
        ensures
            r == list@.contains(x),
    {
        let mut k: usize = 0;
        while k < list.len()
            invariant
                k <= list@.len(),
                forall|j: int| 0 <= j < k ==> list@[j] != x,
            decreases list@.len() - k,
        {
            if list[k] == x {
                return true;
            }
            k += 1;
        }
        false
    }

    /// The backgrounds worth showing, in increasing order.
    pub fn valid_indices(&self, no_giygas: bool) -> (r: Vec<usize>)
        requires
            forall|i: int| 0 <= i < BG_ENTRIES ==> #[trigger] self.background_in_range(i),
        ensures
            r@ == self.offered_prefix(no_giygas, BG_ENTRIES as int),
    {
        let mut indices: Vec<usize> = Vec::new();
        let blacklisted = Self::BLACKLISTED;
        let giygas = Self::GIYGAS;
        let mut i: usize = 0;
        while i < BG_ENTRIES
            invariant
                i <= BG_ENTRIES,
                blacklisted == Self::BLACKLISTED,
                giygas == Self::GIYGAS,
                forall|i: int| 0 <= i < BG_ENTRIES ==> #[trigger] self.background_in_range(i),
                indices@ == self.offered_prefix(no_giygas, i as int),
            decreases BG_ENTRIES - i,
        {
            if Self::list_contains(blacklisted.as_slice(), i) || (no_giygas && Self::list_contains(
                giygas.as_slice(),
                i,
            )) {
                // it's a black screen, or one of the spooky ones
            } else if self.index_is_valid(i) {
                indices.push(i);
            }
            i += 1;
        }
        indices
    }
}


impl SaturnBgData {
    /// The effect in slot `s` of background `bg_index`.
    pub open spec fn slot_effect(self, bg_index: int, s: int) -> DistortionEffect {
        self.effects@[self.backgrounds@[bg_index].effects[s] as int]
    }

    /// The four effects of background `bg_index` exist.
    pub open spec fn effects_in_range(self, bg_index: int) -> bool {
        &&& 0 <= bg_index < self.backgrounds@.len()
        &&& forall|k: int|
            0 <= k < 4 ==> (#[trigger] self.backgrounds@[bg_index].effects[k]) < self.effects@.len()
    }

    /// The effect in slot `effect_index` of background `bg_index`, whether
    /// or not it is empty.
    pub fn get_effect(&self, bg_index: usize, effect_index: usize) -> (e: &DistortionEffect)
        requires
            effect_index < 4,
            self.effects_in_range(bg_index as int),
        ensures
            *e == self.slot_effect(bg_index as int, effect_index as int),
    {
        let bg = &self.backgrounds[bg_index];
        &self.effects[bg.effects[effect_index] as usize]
    }

    /// The tile set of background `bg_index` is present, its arrangement
    /// exists, and every tile the arrangement references exists.
    pub open spec fn framebuffer_available(self, bg_index: int) -> bool {
        &&& 0 <= bg_index < self.backgrounds@.len()
        &&& {
            let g = self.backgrounds@[bg_index].graphics_index as int;
            &&& g < self.tiles@.len()
            &&& g < self.arrangements@.len()
            &&& self.tiles@[g] is Some
            &&& forall|y: int, x: int|
                0 <= y < 32 && 0 <= x < 32 ==> (#[trigger] self.arrangements@[g].grid[y][x]).tile_index
                    < self.tiles@[g].unwrap().tiles@.len()
        }
    }

    /// The palette index at row `py` and column `px` of the 256x256 image of
    /// background `bg_index`: the pixel of the referenced tile, mirrored
    /// within the tile as the reference's flip bits say.
    pub open spec fn framebuffer_pixel(self, bg_index: int, py: int, px: int) -> u8 {
        let g = self.backgrounds@[bg_index].graphics_index as int;
        let entry = self.arrangements@[g].grid[py / 8][px / 8];
        let tile = self.tiles@[g].unwrap().tiles@[entry.tile_index as int];
        let tx = if entry.h_flip {
            7 - px % 8
        } else {
            px % 8
        };
        let ty = if entry.v_flip {
            7 - py % 8
        } else {
            py % 8
        };
        tile[ty][tx]
    }

    /// The 256x256 image of background `bg_index`, row by row, as palette
    /// indices.
    pub fn get_framebuffer(&self, bg_index: usize) -> (f_buf: Vec<u8>)
        requires
            self.framebuffer_available(bg_index as int),
        ensures
            f_buf@.len() == 256 * 256,
            forall|py: int, px: int|
                0 <= py < 256 && 0 <= px < 256 ==> #[trigger] f_buf@[py * 256 + px]
                    == self.framebuffer_pixel(bg_index as int, py, px),
    {
        let bg = &self.backgrounds[bg_index];
        let g = bg.graphics_index as usize;
        let tileset = self.tiles[g].as_ref().unwrap();
        let arrangement = &self.arrangements[g];

        let mut f_buf: Vec<u8> = Vec::new();
        let mut py: usize = 0;
        while py < 256
            invariant
                py <= 256,
                self.framebuffer_available(bg_index as int),
                g == self.backgrounds@[bg_index as int].graphics_index,
                Some(*tileset) == self.tiles@[g as int],
                *arrangement == self.arrangements@[g as int],
                f_buf@.len() == py * 256,
                forall|y: int, x: int|
                    0 <= y < py && 0 <= x < 256 ==> #[trigger] f_buf@[y * 256 + x]
                        == self.framebuffer_pixel(bg_index as int, y, x),
            decreases 256 - py,
        {
            let mut px: usize = 0;
            while px < 256
                invariant
                    py < 256,
                    px <= 256,
                    self.framebuffer_available(bg_index as int),
                    g == self.backgrounds@[bg_index as int].graphics_index,
                    Some(*tileset) == self.tiles@[g as int],
                    *arrangement == self.arrangements@[g as int],
                    f_buf@.len() == py * 256 + px,
                    forall|y: int, x: int|
                        0 <= y < py && 0 <= x < 256 ==> #[trigger] f_buf@[y * 256 + x]
                            == self.framebuffer_pixel(bg_index as int, y, x),
                    forall|x: int|
                        0 <= x < px ==> #[trigger] f_buf@[py * 256 + x] == self.framebuffer_pixel(
                            bg_index as int,
                            py as int,
                            x,
                        ),
                decreases 256 - px,
            {
                let entry = arrangement.grid[py / 8][px / 8];
                let tile = &tileset.tiles[entry.tile_index as usize];
                let tx = if entry.h_flip {
                    7 - (px % 8)
                } else {
                    px % 8
                };
                let ty = if entry.v_flip {
                    7 - (py % 8)
                } else {
                    py % 8
                };
                f_buf.push(tile[ty][tx]);
                px += 1;
            }
            py += 1;
        }
        f_buf
    }

    /// Every pixel of every tile of tile set `g` indexes a color of palette
    /// `p`.
    pub open spec fn tiles_within_palette(self, g: int, p: int) -> bool {
        forall|t: int, y: int, x: int|
            0 <= t < self.tiles@[g].unwrap().tiles@.len() && 0 <= y < 8 && 0 <= x < 8
                ==> (#[trigger] self.tiles@[g].unwrap().tiles@[t][y][x]) < self.palettes@[p].unwrap().colors@.len()
    }

    /// Background `bg_index` can be animated: its tile set, arrangement,
    /// palette and four effects exist, its image references only tiles that
    /// exist and colors of its palette, and the ranges of its palette that
    /// cycle lie within the palette.
    pub open spec fn spec_can_show(self, bg_index: int) -> bool {
        &&& self.background_in_range(bg_index)
        &&& self.framebuffer_available(bg_index)
        &&& self.effects_in_range(bg_index)
        &&& {
            let bg = self.backgrounds@[bg_index];
            let g = bg.graphics_index as int;
            let p = bg.palette_index as int;
            &&& self.palettes@[p] is Some
            &&& self.tiles_within_palette(g, p)
            &&& bg.cycle_speed > 0 ==> crate::anim::saturn::cycle_ranges_fit(
                self.palettes@[p].unwrap().colors@.len() as int,
                bg,
            )
        }
    }

    /// Every tile of `tiles` has only pixels below `n`.
    fn pixels_below(tiles: &Vec<[[u8; 8]; 8]>, n: usize) -> (r: bool)
        ensures
            r == forall|t: int, y: int, x: int|
                0 <= t < tiles@.len() && 0 <= y < 8 && 0 <= x < 8 ==> (#[trigger] tiles@[t][y][x]) < n,
    {
        let mut t: usize = 0;
        while t < tiles.len()
            invariant
                t <= tiles@.len(),
                forall|t2: int, y: int, x: int|
                    0 <= t2 < t && 0 <= y < 8 && 0 <= x < 8 ==> (#[trigger] tiles@[t2][y][x]) < n,
            decreases tiles@.len() - t,
        {
            let tile = &tiles[t];
            let mut y: usize = 0;
            while y < 8
                invariant
                    t < tiles@.len(),
                    *tile == tiles@[t as int],
                    y <= 8,
                    forall|t2: int, y2: int, x: int|
                        0 <= t2 < t && 0 <= y2 < 8 && 0 <= x < 8 ==> (#[trigger] tiles@[t2][y2][x]) < n,
                    forall|y2: int, x: int| 0 <= y2 < y && 0 <= x < 8 ==> (#[trigger] tiles@[t as int][y2][x]) < n,
                decreases 8 - y,
            {
                let mut x: usize = 0;
                while x < 8
                    invariant
                        t < tiles@.len(),
                        *tile == tiles@[t as int],
                        y < 8,
                        x <= 8,
                        forall|y2: int, x2: int|
                            0 <= y2 < y && 0 <= x2 < 8 ==> (#[trigger] tiles@[t as int][y2][x2]) < n,
                        forall|x2: int| 0 <= x2 < x ==> (#[trigger] tiles@[t as int][y as int][x2]) < n,
                    decreases 8 - x,
                {
                    if tile[y][x] as usize >= n {
                        return false;
                    }
                    x += 1;
                }
                y += 1;
            }
            t += 1;
        }
        true
    }

    /// Every reference of `arrangement` names one of `count` tiles.
    fn references_below(arrangement: &Arrangement, count: usize) -> (r: bool)
        ensures
            r == forall|y: int, x: int|
                0 <= y < 32 && 0 <= x < 32 ==> (#[trigger] arrangement.grid[y][x]).tile_index < count,
    {
        let mut y: usize = 0;
        while y < 32
            invariant
                y <= 32,
                forall|y2: int, x: int|
                    0 <= y2 < y && 0 <= x < 32 ==> (#[trigger] arrangement.grid[y2][x]).tile_index < count,
            decreases 32 - y,
        {
            let mut x: usize = 0;
            while x < 32
                invariant
                    y < 32,
                    x <= 32,
                    forall|y2: int, x2: int|
                        0 <= y2 < y && 0 <= x2 < 32 ==> (#[trigger] arrangement.grid[y2][x2]).tile_index < count,
                    forall|x2: int| 0 <= x2 < x ==> (#[trigger] arrangement.grid[y as int][x2]).tile_index < count,
                decreases 32 - x,
            {
                if arrangement.grid[y][x].tile_index as usize >= count {
                    return false;
                }
                x += 1;
            }
            y += 1;
        }
        true
    }

    /// Whether background `bg_index` can be animated.
    pub fn can_show(&self, bg_index: usize) -> (r: bool)
        ensures
            r == self.spec_can_show(bg_index as int),
    {
        if bg_index >= self.backgrounds.len() {
            return false;
        }
        let bg = &self.backgrounds[bg_index];
        let g = bg.graphics_index as usize;
        let p = bg.palette_index as usize;
        if g >= self.tiles.len() || p >= self.palettes.len() || g >= self.arrangements.len() {
            return false;
        }
        let tileset = match &self.tiles[g] {
            Some(t) => t,
            None => return false,
        };
        let palette = match &self.palettes[p] {
            Some(pal) => pal,
            None => return false,
        };
        if !Self::references_below(&self.arrangements[g], tileset.tiles.len()) {
            return false;
        }
        let mut k: usize = 0;
        while k < 4
            invariant
                k <= 4,
                bg_index < self.backgrounds@.len(),
                *bg == self.backgrounds@[bg_index as int],
                forall|j: int| 0 <= j < k ==> (#[trigger] bg.effects[j]) < self.effects@.len(),
            decreases 4 - k,
        {
            if bg.effects[k] as usize >= self.effects.len() {
                return false;
            }
            k += 1;
        }
        if !Self::pixels_below(&tileset.tiles, palette.colors.len()) {
            return false;
        }
        let n = palette.colors.len();
        if bg.cycle_speed > 0 {
            if bg.cycle1_start < bg.cycle1_end && bg.cycle1_end as usize >= n {
                return false;
            }
            if bg.cycle2_start < bg.cycle2_end && bg.cycle2_end as usize >= n {
                return false;
            }
        }
        true
    }

    /// The colors of the palette of background `bg_index`.
    pub fn get_palette(&self, bg_index: usize) -> (colors: Vec<[u8; 3]>)
        requires
            bg_index < self.backgrounds@.len(),
            self.backgrounds@[bg_index as int].palette_index < self.palettes@.len(),
            self.palettes@[self.backgrounds@[bg_index as int].palette_index as int] is Some,
        ensures
            colors@ == self.palettes@[self.backgrounds@[bg_index as int].palette_index as int].unwrap().colors@,
    {
        let palette = self.palettes[self.backgrounds[bg_index].palette_index as usize].as_ref().unwrap();
        let mut colors: Vec<[u8; 3]> = Vec::new();
        let mut k: usize = 0;
        while k < palette.colors.len()
            invariant
                k <= palette.colors@.len(),
                colors@ == palette.colors@.take(k as int),
            decreases palette.colors@.len() - k,
        {
            colors.push(palette.colors[k]);
            k += 1;
            assert(colors@ =~= palette.colors@.take(k as int));
        }
        assert(colors@ =~= palette.colors@);
        colors
    }
}


// ---------------------------------------------------------------------------
// Laws
// ---------------------------------------------------------------------------

impl SaturnBgData {
    /// Reference (`by`, `bx`) of the arrangement of background `bg_index`
    /// in `self` and in `other` differ at most in their flip bits, `v` and
    /// `h` telling whether the vertical and the horizontal bit differ; the
    /// backgrounds and tiles are the same.
    pub open spec fn differs_in_flips(self, other: Self, bg_index: int, by: int, bx: int, v: bool, h: bool) -> bool {
        let g = self.backgrounds@[bg_index].graphics_index as int;
        let e = self.arrangements@[g].grid[by][bx];
        let f = other.arrangements@[g].grid[by][bx];
        &&& other.backgrounds@ == self.backgrounds@
        &&& other.tiles@ == self.tiles@
        &&& other.arrangements@.len() == self.arrangements@.len()
        &&& f.tile_index == e.tile_index
        &&& f.sub_palette == e.sub_palette
        &&& f.v_flip == (if v { !e.v_flip } else { e.v_flip })
        &&& f.h_flip == (if h { !e.h_flip } else { e.h_flip })
    }

    /// A tile reference without flips shows its tile as it is: the image
    /// pixel at row `8 * by + y` and column `8 * bx + x` is pixel (`y`, `x`)
    /// of the referenced tile.
    pub proof fn lemma_unflipped_reference_shows_its_tile(self, bg_index: int, by: int, bx: int, y: int, x: int)
        requires
            self.framebuffer_available(bg_index),
            0 <= by < 32,
            0 <= bx < 32,
            0 <= y < 8,
            0 <= x < 8,
            !self.arrangements@[self.backgrounds@[bg_index].graphics_index as int].grid[by][bx].v_flip,
            !self.arrangements@[self.backgrounds@[bg_index].graphics_index as int].grid[by][bx].h_flip,
        ensures
            ({
                let g = self.backgrounds@[bg_index].graphics_index as int;
                let e = self.arrangements@[g].grid[by][bx];
                self.framebuffer_pixel(bg_index, 8 * by + y, 8 * bx + x) == self.tiles@[g].unwrap().tiles@[e.tile_index as int][y][x]
            }),
    {
        assert((8 * by + y) / 8 == by && (8 * by + y) % 8 == y);
        assert((8 * bx + x) / 8 == bx && (8 * bx + x) % 8 == x);
    }

    /// Flipping a tile reference vertically mirrors the eight image rows it
    /// covers: where `other` differs from `self` only in the vertical flip
    /// bit of reference (`by`, `bx`), image row `8 * by + k` of one shows
    /// what row `8 * by + 7 - k` of the other shows, across the reference's
    /// eight columns.
    pub proof fn lemma_vertical_flip_mirrors_rows(self, other: Self, bg_index: int, by: int, bx: int)
        requires
            self.framebuffer_available(bg_index),
            0 <= by < 32,
            0 <= bx < 32,
            self.differs_in_flips(other, bg_index, by, bx, true, false),
        ensures
            forall|k: int, px: int|
                0 <= k < 8 && 8 * bx <= px < 8 * bx + 8 ==> #[trigger] other.framebuffer_pixel(bg_index, 8 * by + k, px)
                    == self.framebuffer_pixel(bg_index, 8 * by + 7 - k, px),
    {
        assert forall|k: int, px: int| 0 <= k < 8 && 8 * bx <= px < 8 * bx + 8 implies #[trigger] other.framebuffer_pixel(
            bg_index,
            8 * by + k,
            px,
        ) == self.framebuffer_pixel(bg_index, 8 * by + 7 - k, px) by {
            assert((8 * by + k) / 8 == by && (8 * by + k) % 8 == k);
            assert((8 * by + 7 - k) / 8 == by && (8 * by + 7 - k) % 8 == 7 - k);
            assert(px / 8 == bx);
        }
    }

    /// Flipping a tile reference horizontally mirrors the eight image
    /// columns it covers: where `other` differs from `self` only in the
    /// horizontal flip bit of reference (`by`, `bx`), image column
    /// `8 * bx + k` of one shows what column `8 * bx + 7 - k` of the other
    /// shows, across the reference's eight rows.
    pub proof fn lemma_horizontal_flip_mirrors_columns(self, other: Self, bg_index: int, by: int, bx: int)
        requires
            self.framebuffer_available(bg_index),
            0 <= by < 32,
            0 <= bx < 32,
            self.differs_in_flips(other, bg_index, by, bx, false, true),
        ensures
            forall|k: int, py: int|
                0 <= k < 8 && 8 * by <= py < 8 * by + 8 ==> #[trigger] other.framebuffer_pixel(bg_index, py, 8 * bx + k)
                    == self.framebuffer_pixel(bg_index, py, 8 * bx + 7 - k),
    {
        assert forall|k: int, py: int| 0 <= k < 8 && 8 * by <= py < 8 * by + 8 implies #[trigger] other.framebuffer_pixel(
            bg_index,
            py,
            8 * bx + k,
        ) == self.framebuffer_pixel(bg_index, py, 8 * bx + 7 - k) by {
            assert((8 * bx + k) / 8 == bx && (8 * bx + k) % 8 == k);
            assert((8 * bx + 7 - k) / 8 == bx && (8 * bx + 7 - k) % 8 == 7 - k);
            assert(py / 8 == by);
        }
    }

    /// Decoding is determined by the data: two values that both decode `rom`
    /// (two calls of `SaturnBgData::new` on the same bytes, say) hold the same
    /// backgrounds, effects, palettes, tiles and arrangements.
    pub proof fn lemma_decoding_is_determined(self, other: Self, rom: Seq<u8>)
        requires
            self.decodes(rom),
            other.decodes(rom),
        ensures
            self.backgrounds@ == other.backgrounds@,
            self.effects@ == other.effects@,
            self.palettes@.len() == other.palettes@.len(),
            forall|i: int|
                0 <= i < self.palettes@.len() ==> #[trigger] palette_view(self.palettes@[i]) == palette_view(
                    other.palettes@[i],
                ),
            self.tiles@.len() == other.tiles@.len(),
            forall|i: int|
                0 <= i < self.tiles@.len() ==> (#[trigger] self.tiles@[i] is Some <==> other.tiles@[i] is Some),
            forall|i: int|
                0 <= i < self.tiles@.len() && #[trigger] self.tiles@[i] is Some ==> self.tiles@[i].unwrap().tiles@.len()
                    == other.tiles@[i].unwrap().tiles@.len(),
            forall|i: int, t: int, y: int, x: int|
                0 <= i < self.tiles@.len() && self.tiles@[i] is Some && 0 <= t < self.tiles@[i].unwrap().tiles@.len()
                    && 0 <= y < 8 && 0 <= x < 8 ==> #[trigger] self.tiles@[i].unwrap().tiles@[t][y][x]
                    == other.tiles@[i].unwrap().tiles@[t][y][x],
            self.arrangements@.len() == other.arrangements@.len(),
            forall|i: int, y: int, x: int|
                0 <= i < self.arrangements@.len() && 0 <= y < 32 && 0 <= x < 32
                    ==> #[trigger] self.arrangements@[i].grid[y][x] == other.arrangements@[i].grid[y][x],
    {
        let bgs = background_entries(rom);
        assert forall|i: int| 0 <= i < self.palettes@.len() implies #[trigger] palette_view(self.palettes@[i])
            == palette_view(other.palettes@[i]) by {
            assert(palette_at(rom, palette_bpp_map(bgs), i) == Some(palette_view(self.palettes@[i])));
            assert(palette_at(rom, palette_bpp_map(bgs), i) == Some(palette_view(other.palettes@[i])));
        }
        assert forall|i: int| 0 <= i < self.tiles@.len() implies (#[trigger] self.tiles@[i] is Some
            <==> other.tiles@[i] is Some) by {
            assert(tileset_view_matches(self.tiles@[i], tileset_source(rom, graphics_bpp_map(bgs), i).unwrap()));
            assert(tileset_view_matches(other.tiles@[i], tileset_source(rom, graphics_bpp_map(bgs), i).unwrap()));
        }
        assert forall|i: int, t: int, y: int, x: int|
            0 <= i < self.tiles@.len() && self.tiles@[i] is Some && 0 <= t < self.tiles@[i].unwrap().tiles@.len()
                && 0 <= y < 8 && 0 <= x < 8 implies #[trigger] self.tiles@[i].unwrap().tiles@[t][y][x]
            == other.tiles@[i].unwrap().tiles@[t][y][x] by {
            assert(tileset_view_matches(self.tiles@[i], tileset_source(rom, graphics_bpp_map(bgs), i).unwrap()));
            assert(tileset_view_matches(other.tiles@[i], tileset_source(rom, graphics_bpp_map(bgs), i).unwrap()));
        }
        assert forall|i: int| 0 <= i < self.tiles@.len() && #[trigger] self.tiles@[i] is Some implies self.tiles@[i].unwrap().tiles@.len()
            == other.tiles@[i].unwrap().tiles@.len() by {
            assert(tileset_view_matches(self.tiles@[i], tileset_source(rom, graphics_bpp_map(bgs), i).unwrap()));
            assert(tileset_view_matches(other.tiles@[i], tileset_source(rom, graphics_bpp_map(bgs), i).unwrap()));
        }
        assert forall|i: int, y: int, x: int|
            0 <= i < self.arrangements@.len() && 0 <= y < 32 && 0 <= x < 32 implies #[trigger] self.arrangements@[i].grid[y][x]
            == other.arrangements@[i].grid[y][x] by {
            assert(arrangement_matches(self.arrangements@[i], arrangement_source(rom, i).unwrap()));
            assert(arrangement_matches(other.arrangements@[i], arrangement_source(rom, i).unwrap()));
        }
    }
}

impl SaturnBgData {
    /// The backgrounds offered among `0..n` are exactly the offered ones,
    /// each once, in increasing order: no blacklisted background, and no
    /// Giygas background when `no_giygas` holds, is ever offered.
    pub proof fn lemma_offered_prefix(self, no_giygas: bool, n: int)
        requires
            0 <= n <= usize::MAX,
        ensures
            forall|k: int|
                0 <= k < self.offered_prefix(no_giygas, n).len() ==> {
                    let i = #[trigger] self.offered_prefix(no_giygas, n)[k];
                    &&& i < n
                    &&& self.offered(no_giygas, i as int)
                    &&& !Self::BLACKLISTED@.contains(i)
                    &&& no_giygas ==> !Self::GIYGAS@.contains(i)
                },
            forall|a: int, b: int|
                0 <= a < b < self.offered_prefix(no_giygas, n).len() ==> #[trigger] self.offered_prefix(
                    no_giygas,
                    n,
                )[a] < #[trigger] self.offered_prefix(no_giygas, n)[b],
            forall|i: int|
                0 <= i < n && self.offered(no_giygas, i) ==> #[trigger] self.offered_prefix(
                    no_giygas,
                    n,
                ).contains(i as usize),
        decreases n,
    {
        if n > 0 {
            self.lemma_offered_prefix(no_giygas, n - 1);
            let prev = self.offered_prefix(no_giygas, n - 1);
            let cur = self.offered_prefix(no_giygas, n);
            assert forall|k: int| 0 <= k < cur.len() implies {
                let i = #[trigger] cur[k];
                &&& i < n
                &&& self.offered(no_giygas, i as int)
                &&& !Self::BLACKLISTED@.contains(i)
                &&& no_giygas ==> !Self::GIYGAS@.contains(i)
            } by {
                if k < prev.len() {
                    assert(cur[k] == prev[k]);
                }
            }
            assert forall|a: int, b: int| 0 <= a < b < cur.len() implies #[trigger] cur[a] < #[trigger] cur[b] by {
                if b < prev.len() {
                    assert(cur[a] == prev[a] && cur[b] == prev[b]);
                } else {
                    assert(cur[a] == prev[a]);
                }
            }
            assert forall|i: int| 0 <= i < n && self.offered(no_giygas, i) implies #[trigger] cur.contains(i as usize) by {
                if i < n - 1 {
                    assert(prev.contains(i as usize));
                    let k = choose|k: int| 0 <= k < prev.len() && prev[k] == i as usize;
                    assert(cur[k] == prev[k]);
                } else {
                    assert(cur[cur.len() - 1] == i as usize);
                }
            }
        }
    }
}

} // verus!
