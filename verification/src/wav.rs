//! PCM audio in a WAV container.

use vstd::prelude::*;

use crate::npy;

verus! {

/// The lowest `k` bytes of `n`, least significant first.
pub open spec fn le_bytes(n: nat, k: nat) -> Seq<u8>
    decreases k,
{
    if k == 0 {
        Seq::empty()
    } else {
        seq![(n % 256) as u8] + le_bytes(n / 256, (k - 1) as nat)
    }
}

/// The bytes of a number read back as that number.
pub proof fn law_le_bytes_read_back(n: nat, k: nat)
    requires
        n < npy::byte_range(k),
    ensures
        npy::le_value(le_bytes(n, k)) == n,
        le_bytes(n, k).len() == k,
    decreases k,
{
    if k > 0 {
        law_le_bytes_read_back(n / 256, (k - 1) as nat);
        assert(le_bytes(n, k).skip(1) =~= le_bytes(n / 256, (k - 1) as nat));
    }
}

pub open spec fn saturated_u32(n: int) -> int {
    if n > u32::MAX {
        u32::MAX as int
    } else {
        n
    }
}

pub open spec fn saturated_u16(n: int) -> int {
    if n > u16::MAX {
        u16::MAX as int
    } else {
        n
    }
}

/// The 44 bytes in front of the samples.
pub open spec fn wav_header(data_size: u32, rate: u32, channels: u16) -> Seq<u8> {
    seq![0x52u8, 0x49, 0x46, 0x46] + le_bytes(saturated_u32(36 + data_size) as nat, 4) + seq![
        0x57u8,
        0x41,
        0x56,
        0x45,
        0x66,
        0x6d,
        0x74,
        0x20,
    ] + le_bytes(16, 4) + le_bytes(1, 2) + le_bytes(channels as nat, 2) + le_bytes(rate as nat, 4) + le_bytes(
        saturated_u32(saturated_u32(rate * channels) * 2) as nat,
        4,
    ) + le_bytes(saturated_u16(channels * 2) as nat, 2) + le_bytes(16, 2) + seq![0x64u8, 0x61, 0x74, 0x61]
        + le_bytes(data_size as nat, 4)
}

fn push_le(out: &mut Vec<u8>, n: u32, k: usize)
    requires
        k <= 4,
    ensures
        final(out)@ == old(out)@ + le_bytes(n as nat, k as nat),
    decreases k,
{
    if k > 0 {
        let ghost before = out@;
        out.push((n % 256) as u8);
        push_le(out, n / 256, k - 1);
        assert(out@ =~= before + le_bytes(n as nat, k as nat));
    } else {
        assert(out@ =~= out@ + le_bytes(n as nat, 0));
    }
}

fn push_four(out: &mut Vec<u8>, a: u8, b: u8, c: u8, d: u8)
    ensures
        final(out)@ == old(out)@ + seq![a, b, c, d],
{
    out.push(a);
    out.push(b);
    out.push(c);
    out.push(d);
    assert(out@ =~= old(out)@ + seq![a, b, c, d]);
}

/// A WAV file with 16-bit samples. The size fields count modulo `2^32`.
pub fn wav_bytes_pcm16le(pcm_bytes: &[u8], sample_rate_hz: u32, channels: u16) -> (r: Vec<u8>)
    ensures
        r@ == wav_header(pcm_bytes@.len() as u32, sample_rate_hz, channels) + pcm_bytes@,
{
    let data_size: u32 = pcm_bytes.len() as u32;
    let riff_size: u32 = data_size.saturating_add(36);
    assert(0 <= sample_rate_hz * channels <= 0xffff_ffff * 0xffff) by (nonlinear_arith)
        requires
            0 <= sample_rate_hz <= 0xffff_ffff,
            0 <= channels <= 0xffff,
    ;
    let product: u64 = sample_rate_hz as u64 * channels as u64;
    let cut: u64 = if product > u32::MAX as u64 {
        u32::MAX as u64
    } else {
        product
    };
    let doubled: u64 = cut * 2;
    let byte_rate: u32 = if doubled > u32::MAX as u64 {
        u32::MAX
    } else {
        doubled as u32
    };
    let pair: u32 = channels as u32 * 2;
    let block_align: u32 = if pair > u16::MAX as u32 {
        u16::MAX as u32
    } else {
        pair
    };
    let mut out: Vec<u8> = Vec::new();
    push_four(&mut out, 0x52, 0x49, 0x46, 0x46);
    push_le(&mut out, riff_size, 4);
    push_four(&mut out, 0x57, 0x41, 0x56, 0x45);
    push_four(&mut out, 0x66, 0x6d, 0x74, 0x20);
    push_le(&mut out, 16, 4);
    push_le(&mut out, 1, 2);
    push_le(&mut out, channels as u32, 2);
    push_le(&mut out, sample_rate_hz, 4);
    push_le(&mut out, byte_rate, 4);
    push_le(&mut out, block_align, 2);
    push_le(&mut out, 16, 2);
    push_four(&mut out, 0x64, 0x61, 0x74, 0x61);
    push_le(&mut out, data_size, 4);
    assert(out@ =~= wav_header(data_size, sample_rate_hz, channels));
    out.extend_from_slice(pcm_bytes);
    assert(out@ =~= wav_header(data_size, sample_rate_hz, channels) + pcm_bytes@);
    out
}

/// The header has 44 bytes, and its last four tell how many bytes follow.
pub proof fn law_header_tells_the_size(data_size: u32, rate: u32, channels: u16)
    ensures
        wav_header(data_size, rate, channels).len() == 44,
        npy::le_value(wav_header(data_size, rate, channels).skip(40)) == data_size,
{
    reveal_with_fuel(npy::byte_range, 5);
    let byte_rate = saturated_u32(saturated_u32(rate * channels) * 2);
    assert(0 <= rate * channels) by (nonlinear_arith);
    law_le_bytes_read_back(saturated_u32(36 + data_size) as nat, 4);
    law_le_bytes_read_back(16, 4);
    law_le_bytes_read_back(1, 2);
    law_le_bytes_read_back(channels as nat, 2);
    law_le_bytes_read_back(rate as nat, 4);
    law_le_bytes_read_back(byte_rate as nat, 4);
    law_le_bytes_read_back(saturated_u16(channels * 2) as nat, 2);
    law_le_bytes_read_back(16, 2);
    law_le_bytes_read_back(data_size as nat, 4);
    assert(wav_header(data_size, rate, channels).skip(40) =~= le_bytes(data_size as nat, 4));
}

/// The header names its kind, and tells the rate, the channels, and what follows from
/// them: two bytes for each sample of each channel.
pub proof fn law_header_tells_the_format(data_size: u32, rate: u32, channels: u16)
    ensures
        ({
            let h = wav_header(data_size, rate, channels);
            &&& h.subrange(0, 4) == seq![0x52u8, 0x49, 0x46, 0x46]
            &&& h.subrange(8, 16) == seq![0x57u8, 0x41, 0x56, 0x45, 0x66, 0x6d, 0x74, 0x20]
            &&& h.subrange(36, 40) == seq![0x64u8, 0x61, 0x74, 0x61]
            &&& data_size + 36 <= u32::MAX ==> npy::le_value(h.subrange(4, 8)) == data_size + 36
            &&& npy::le_value(h.subrange(16, 20)) == 16
            &&& npy::le_value(h.subrange(20, 22)) == 1
            &&& npy::le_value(h.subrange(22, 24)) == channels
            &&& npy::le_value(h.subrange(24, 28)) == rate
            &&& rate * channels * 2 <= u32::MAX ==> npy::le_value(h.subrange(28, 32)) == rate * channels * 2
            &&& channels * 2 <= u16::MAX ==> npy::le_value(h.subrange(32, 34)) == channels * 2
            &&& npy::le_value(h.subrange(34, 36)) == 16
        }),
{
    reveal_with_fuel(npy::byte_range, 5);
    let h = wav_header(data_size, rate, channels);
    let riff = saturated_u32(36 + data_size) as nat;
    let byte_rate = saturated_u32(saturated_u32(rate * channels) * 2) as nat;
    let align = saturated_u16(channels * 2) as nat;
    assert(0 <= rate * channels) by (nonlinear_arith);
    law_le_bytes_read_back(riff, 4);
    law_le_bytes_read_back(16, 4);
    law_le_bytes_read_back(1, 2);
    law_le_bytes_read_back(channels as nat, 2);
    law_le_bytes_read_back(rate as nat, 4);
    law_le_bytes_read_back(byte_rate, 4);
    law_le_bytes_read_back(align, 2);
    law_le_bytes_read_back(16, 2);
    law_le_bytes_read_back(data_size as nat, 4);
    assert(h.subrange(4, 8) =~= le_bytes(riff, 4));
    assert(h.subrange(16, 20) =~= le_bytes(16, 4));
    assert(h.subrange(20, 22) =~= le_bytes(1, 2));
    assert(h.subrange(22, 24) =~= le_bytes(channels as nat, 2));
    assert(h.subrange(24, 28) =~= le_bytes(rate as nat, 4));
    assert(h.subrange(28, 32) =~= le_bytes(byte_rate, 4));
    assert(h.subrange(32, 34) =~= le_bytes(align, 2));
    assert(h.subrange(34, 36) =~= le_bytes(16, 2));
}

} // verus!
