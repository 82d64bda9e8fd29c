//! The layout of the battle-background data, stated as functions on byte
//! sequences. The decoders in `romparse` are proved against these.

use vstd::prelude::*;

verus! {

// ---------------------------------------------------------------------------
// Little and big endian integers
// ---------------------------------------------------------------------------

/// Two bytes read as a little-endian `u16`.
pub open spec fn u16_le(b0: u8, b1: u8) -> u16 {
    (b0 as int + 256 * b1 as int) as u16
}

/// Two bytes read as a big-endian `u16`.
pub open spec fn u16_be(b0: u8, b1: u8) -> u16 {
    (256 * b0 as int + b1 as int) as u16
}

/// Two bytes read as a little-endian two's complement `i16`.
pub open spec fn i16_le(b0: u8, b1: u8) -> i16 {
    let u = b0 as int + 256 * b1 as int;
    if u >= 0x8000 {
        (u - 0x10000) as i16
    } else {
        u as i16
    }
}

/// Four bytes read as a little-endian `u32`.
pub open spec fn u32_le(b0: u8, b1: u8, b2: u8, b3: u8) -> u32 {
    (b0 as int + 0x100 * b1 as int + 0x1_0000 * b2 as int + 0x100_0000 * b3 as int) as u32
}

/// The byte with its bit order reversed (bit 0 becomes bit 7 and so on).
pub open spec fn reverse_bits(b: u8) -> u8 {
    ((b & 0x01) << 7u8) | ((b & 0x02) << 5u8) | ((b & 0x04) << 3u8) | ((b & 0x08) << 1u8)
        | ((b & 0x10) >> 1u8) | ((b & 0x20) >> 3u8) | ((b & 0x40) >> 5u8) | ((b & 0x80) >> 7u8)
}

/// Reversing the bits twice gives the byte back.
pub proof fn lemma_reverse_bits_involutive(b: u8)
    ensures
        reverse_bits(reverse_bits(b)) == b,
{
    assert(reverse_bits(reverse_bits(b)) == b) by (bit_vector);
}

// ---------------------------------------------------------------------------
// The compression format of the tile graphics and arrangements
// ---------------------------------------------------------------------------

/// Copy the next `n` input bytes verbatim.
pub const COPY_N: u8 = 0;

/// Repeat the next input byte `n` times.
pub const REPEAT_ONE_N: u8 = 1;

/// Repeat the next two input bytes, alternating, `n` times.
pub const REPEAT_TWO_N: u8 = 2;

/// Write `n` bytes counting up (wrapping) from the next input byte.
pub const INC_SEQ: u8 = 3;

/// Copy `n` bytes from an earlier position of the output.
pub const COPY_N_FROM: u8 = 4;

/// As `COPY_N_FROM`, reversing the bits of each copied byte.
pub const COPY_N_BIT_REV_FROM: u8 = 5;

/// Copy `n` bytes from an earlier position of the output, reading backwards.
pub const COPY_N_FROM_BKWD: u8 = 6;

/// Marks the end of the compressed data.
pub const STOP: u8 = 0xFF;

/// The header of the command at the front of `input`: its type, its length
/// `n` (at least 1), and the number of header bytes (1 or 2). `None` when the
/// second byte of a two-byte header is missing.
///
/// A first byte whose top three bits are all set announces the extended form:
/// bits 2-4 hold the type and bits 0-1 with the next byte hold `n - 1`.
/// Otherwise the top three bits hold the type and the low five bits `n - 1`.
pub open spec fn command_header(input: Seq<u8>) -> Option<(u8, int, int)>
    recommends
        input.len() > 0,
{
    let byte = input[0];
    if byte >> 5u8 == 7 {
        if input.len() < 2 {
            None
        } else {
            Some(((byte >> 2u8) & 7, 256 * (byte & 3) as int + input[1] as int + 1, 2))
        }
    } else {
        Some((byte >> 5u8, (byte & 0x1F) as int + 1, 1))
    }
}

/// `n` copies of `b`.
pub open spec fn repeat_one(b: u8, n: int) -> Seq<u8> {
    Seq::new(n as nat, |i: int| b)
}

/// `b1, b2` repeated `n` times.
pub open spec fn repeat_two(b1: u8, b2: u8, n: int) -> Seq<u8> {
    Seq::new((2 * n) as nat, |i: int| if i % 2 == 0 { b1 } else { b2 })
}

/// `n` bytes counting up from `b`, wrapping past 255.
pub open spec fn increasing_run(b: u8, n: int) -> Seq<u8> {
    Seq::new(n as nat, |i: int| ((b as int + i) % 256) as u8)
}

/// The `n` bytes that copying forward from `pos` appends to `out`. The copy
/// may overlap the bytes it writes, so the output repeats with the period
/// `out.len() - pos`.
pub open spec fn forward_copy(out: Seq<u8>, pos: int, n: int) -> Seq<u8> {
    let d = out.len() - pos;
    Seq::new(n as nat, |i: int| out[pos + i % d])
}

/// As `forward_copy`, each appended byte being the bit reversal of the byte
/// it is copied from. A byte copied from a byte that this same command wrote
/// is reversed twice, so the reversal alternates with each period.
pub open spec fn forward_copy_bit_reversed(out: Seq<u8>, pos: int, n: int) -> Seq<u8> {
    let d = out.len() - pos;
    Seq::new(
        n as nat,
        |i: int|
            if (i / d) % 2 == 0 {
                reverse_bits(out[pos + i % d])
            } else {
                out[pos + i % d]
            },
    )
}

/// The `n` bytes read backwards from `pos` down to `pos - n + 1`.
pub open spec fn backward_copy(out: Seq<u8>, pos: int, n: int) -> Seq<u8> {
    Seq::new(n as nat, |i: int| out[pos - i])
}

/// The effect of one command of type `cmd` and length `n` whose arguments
/// start `args`, on the output `out` decoded so far: the new output and the
/// input after the arguments. `None` when an argument is missing, when a copy
/// reaches outside the output, or for an unknown type.
pub open spec fn apply_command(cmd: u8, n: int, args: Seq<u8>, out: Seq<u8>) -> Option<
    (Seq<u8>, Seq<u8>),
> {
    if cmd == COPY_N {
        if args.len() >= n {
            Some((out + args.take(n), args.skip(n)))
        } else {
            None
        }
    } else if cmd == REPEAT_ONE_N {
        if args.len() >= 1 {
            Some((out + repeat_one(args[0], n), args.skip(1)))
        } else {
            None
        }
    } else if cmd == REPEAT_TWO_N {
        if args.len() >= 2 {
            Some((out + repeat_two(args[0], args[1], n), args.skip(2)))
        } else {
            None
        }
    } else if cmd == INC_SEQ {
        if args.len() >= 1 {
            Some((out + increasing_run(args[0], n), args.skip(1)))
        } else {
            None
        }
    } else if cmd == COPY_N_FROM || cmd == COPY_N_BIT_REV_FROM || cmd == COPY_N_FROM_BKWD {
        if args.len() >= 2 {
            let pos = u16_be(args[0], args[1]) as int;
            if cmd == COPY_N_FROM {
                if pos < out.len() {
                    Some((out + forward_copy(out, pos, n), args.skip(2)))
                } else {
                    None
                }
            } else if cmd == COPY_N_BIT_REV_FROM {
                if pos < out.len() {
                    Some((out + forward_copy_bit_reversed(out, pos, n), args.skip(2)))
                } else {
                    None
                }
            } else {
                if pos < out.len() && n - 1 <= pos {
                    Some((out + backward_copy(out, pos, n), args.skip(2)))
                } else {
                    None
                }
            }
        } else {
            None
        }
    } else {
        None
    }
}

/// One command at the front of `input` (which is not empty and does not start
/// with `STOP`) applied to `out`.
pub open spec fn decode_command(input: Seq<u8>, out: Seq<u8>) -> Option<(Seq<u8>, Seq<u8>)>
    recommends
        input.len() > 0,
{
    match command_header(input) {
        None => None,
        Some((cmd, n, h)) => apply_command(cmd, n, input.skip(h), out),
    }
}

/// The result of decompressing `input` after `out` has been produced: the
/// whole output and the input that follows the data. Decoding ends at a
/// `STOP` byte, which it consumes, or at the end of the input. `None` when
/// some command is malformed.
pub open spec fn decode(input: Seq<u8>, out: Seq<u8>) -> Option<(Seq<u8>, Seq<u8>)>
    decreases input.len(),
{
    if input.len() == 0 {
        Some((out, input))
    } else if input[0] == STOP {
        Some((out, input.drop_first()))
    } else {
        match decode_command(input, out) {
            None => None,
            Some((next_out, rest)) => if rest.len() < input.len() {
                decode(rest, next_out)
            } else {
                None
            },
        }
    }
}

/// The decompression of `input`, with the input that follows the data.
pub open spec fn decompressed(input: Seq<u8>) -> Option<(Seq<u8>, Seq<u8>)> {
    decode(input, Seq::empty())
}

/// Every command consumes at least its first byte.
pub proof fn lemma_decode_command_consumes(input: Seq<u8>, out: Seq<u8>)
    requires
        input.len() > 0,
        decode_command(input, out) is Some,
    ensures
        decode_command(input, out).unwrap().1.len() < input.len(),
{
}


/// A literal block decodes to its bytes: a one-byte header with `n - 1`
/// (for `n` up to 32) followed by `n` bytes and `STOP` gives those bytes,
/// and decoding leaves whatever follows the `STOP`.
pub proof fn lemma_literal_block(bytes: Seq<u8>, rest: Seq<u8>)
    requires
        1 <= bytes.len() <= 32,
    ensures
        decompressed(seq![(bytes.len() - 1) as u8] + bytes + seq![STOP] + rest) == Some((bytes, rest)),
{
    let h = (bytes.len() - 1) as u8;
    let input = seq![h] + bytes + seq![STOP] + rest;
    assert(h >> 5u8 == 0 && h & 0x1F == h) by (bit_vector)
        requires
            h < 32,
    ;
    assert(input[0] == h);
    assert(command_header(input) == Some((COPY_N, bytes.len() as int, 1int)));
    let args = input.skip(1);
    assert(args =~= bytes + seq![STOP] + rest);
    assert(args.take(bytes.len() as int) =~= bytes);
    let after = args.skip(bytes.len() as int);
    assert(after =~= seq![STOP] + rest);
    assert(Seq::<u8>::empty() + bytes =~= bytes);
    assert(decode_command(input, Seq::empty()) == Some((bytes, after)));
    assert(after.drop_first() =~= rest);
    assert(decode(after, bytes) == Some((bytes, rest)));
    assert(decode(input, Seq::empty()) == decode(after, bytes));
}

/// A run decodes to its repetitions: a one-byte header of type
/// `REPEAT_ONE_N` with `n - 1` (for `n` up to 32), the byte `b` and `STOP`
/// give `n` copies of `b`.
pub proof fn lemma_run_block(b: u8, n: int, rest: Seq<u8>)
    requires
        1 <= n <= 32,
    ensures
        decompressed(seq![(0x20 + (n - 1)) as u8, b, STOP] + rest) == Some((repeat_one(b, n), rest)),
{
    let k = (n - 1) as u8;
    let h = (0x20 + (n - 1)) as u8;
    assert(h == 0x20 + k);
    assert(h >> 5u8 == 1 && h & 0x1F == k) by (bit_vector)
        requires
            k < 32,
            h == 0x20 + k,
    ;
    let input = seq![h, b, STOP] + rest;
    assert(command_header(input) == Some((REPEAT_ONE_N, n, 1int)));
    let args = input.skip(1);
    assert(args =~= seq![b, STOP] + rest);
    let after = args.skip(1);
    assert(after =~= seq![STOP] + rest);
    assert(Seq::<u8>::empty() + repeat_one(b, n) =~= repeat_one(b, n));
    assert(decode_command(input, Seq::empty()) == Some((repeat_one(b, n), after)));
    assert(after.drop_first() =~= rest);
    assert(decode(after, repeat_one(b, n)) == Some((repeat_one(b, n), rest)));
    assert(decode(input, Seq::empty()) == decode(after, repeat_one(b, n)));
}

} // verus!
