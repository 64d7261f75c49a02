//! Minimal 16-bit PCM WAV framing: enough to write chunks, read them back and repair a `.part`.

use crate::text::{decimal, push_char};
use vstd::prelude::*;

verus! {

broadcast use vstd::seq_lib::group_seq_properties;

pub const HEADER_LEN: usize = 44;

/// The low byte of a 16-bit value.
pub open spec fn lo(v: u16) -> u8 {
    (v % 256) as u8
}

/// The high byte of a 16-bit value.
pub open spec fn hi(v: u16) -> u8 {
    (v / 256) as u8
}

/// The two's-complement bit pattern of a sample.
pub open spec fn sample_bits(s: i16) -> u16 {
    if s < 0 { (s + 65536) as u16 } else { s as u16 }
}

/// The sample whose little-endian bytes are `b0, b1`.
pub open spec fn sample_of(b0: u8, b1: u8) -> i16 {
    let u = b0 + 256 * b1;
    if u >= 32768 { (u - 65536) as i16 } else { u as i16 }
}

/// `v` as two little-endian bytes.
pub open spec fn le16(v: u16) -> Seq<u8> {
    seq![lo(v), hi(v)]
}

/// `v` as four little-endian bytes.
pub open spec fn le32(v: u32) -> Seq<u8> {
    seq![(v % 256) as u8, ((v / 256) % 256) as u8, ((v / 65536) % 256) as u8, (v / 16777216) as u8]
}

/// The little-endian 32-bit value of four bytes.
pub open spec fn u32_of(b: Seq<u8>, at: int) -> u32 {
    (b[at] + 256 * b[at + 1] + 65536 * b[at + 2] + 16777216 * b[at + 3]) as u32
}

/// The little-endian 16-bit value of two bytes.
pub open spec fn u16_of(b: Seq<u8>, at: int) -> u16 {
    (b[at] + 256 * b[at + 1]) as u16
}

pub open spec fn riff() -> Seq<u8> {
    seq![82u8, 73u8, 70u8, 70u8]
}

pub open spec fn wave() -> Seq<u8> {
    seq![87u8, 65u8, 86u8, 69u8]
}

pub open spec fn fmt_tag() -> Seq<u8> {
    seq![102u8, 109u8, 116u8, 32u8]
}

pub open spec fn data_tag() -> Seq<u8> {
    seq![100u8, 97u8, 116u8, 97u8]
}

/// The header fields fit their widths.
pub open spec fn header_fits(sample_rate: u32, channels: u16, data_len: u32) -> bool {
    &&& 36 + data_len <= u32::MAX
    &&& channels * 2 <= u16::MAX
    &&& sample_rate * (channels * 2) <= u32::MAX
}

/// The 44-byte canonical PCM header.
pub open spec fn header_bytes(sample_rate: u32, channels: u16, data_len: u32) -> Seq<u8> {
    riff() + le32((36 + data_len) as u32) + wave() + fmt_tag() + le32(16) + le16(1) + le16(channels)
        + le32(sample_rate) + le32((sample_rate * (channels * 2)) as u32) + le16((channels * 2) as u16)
        + le16(16) + data_tag() + le32(data_len)
}

/// The samples as little-endian byte pairs.
pub open spec fn pcm_bytes(samples: Seq<i16>) -> Seq<u8> {
    Seq::new(
        (2 * samples.len()) as nat,
        |k: int|
            if k % 2 == 0 {
                lo(sample_bits(samples[k / 2]))
            } else {
                hi(sample_bits(samples[k / 2]))
            },
    )
}

/// The samples that the byte pairs of `b` hold, from `at` on.
pub open spec fn samples_of(b: Seq<u8>, at: int) -> Seq<i16> {
    Seq::new(((b.len() - at) / 2) as nat, |i: int| sample_of(b[at + 2 * i], b[at + 2 * i + 1]))
}

/// A complete file.
pub open spec fn wav_bytes(sample_rate: u32, channels: u16, samples: Seq<i16>) -> Seq<u8> {
    header_bytes(sample_rate, channels, (2 * samples.len()) as u32) + pcm_bytes(samples)
}

fn le_bytes_u32(v: u32) -> (r: (u8, u8, u8, u8))
    ensures
        seq![r.0, r.1, r.2, r.3] == le32(v),
{
    ((v % 256) as u8, ((v / 256) % 256) as u8, ((v / 65536) % 256) as u8, (v / 16777216) as u8)
}

fn bits_of(s: i16) -> (u: u16)
    ensures
        u == sample_bits(s),
{
    if s < 0 {
        (s as i32 + 65536) as u16
    } else {
        s as u16
    }
}

pub fn header(sample_rate: u32, channels: u16, data_len: u32) -> (h: [u8; HEADER_LEN])
    requires
        header_fits(sample_rate, channels, data_len),
    ensures
        h@ == header_bytes(sample_rate, channels, data_len),
{
    let size = le_bytes_u32(36 + data_len);
    let block_align: u16 = channels * 2;
    let rate = le_bytes_u32(sample_rate);
    assert(sample_rate * block_align <= u32::MAX);
    let byte_rate = le_bytes_u32(sample_rate * block_align as u32);
    let len = le_bytes_u32(data_len);
    let h: [u8; HEADER_LEN] = [
        82, 73, 70, 70,
        size.0, size.1, size.2, size.3,
        87, 65, 86, 69,
        102, 109, 116, 32,
        16, 0, 0, 0,
        1, 0,
        (channels % 256) as u8, (channels / 256) as u8,
        rate.0, rate.1, rate.2, rate.3,
        byte_rate.0, byte_rate.1, byte_rate.2, byte_rate.3,
        (block_align % 256) as u8, (block_align / 256) as u8,
        16, 0,
        100, 97, 116, 97,
        len.0, len.1, len.2, len.3,
    ];
    assert(h@ =~= header_bytes(sample_rate, channels, data_len));
    h
}

pub fn encode(sample_rate: u32, channels: u16, samples: &[i16]) -> (out: Vec<u8>)
    requires
        2 * samples@.len() + 36 <= u32::MAX,
        header_fits(sample_rate, channels, (2 * samples@.len()) as u32),
    ensures
        out@ == wav_bytes(sample_rate, channels, samples@),
{
    let h = header(sample_rate, channels, (samples.len() * 2) as u32);
    let mut out: Vec<u8> = Vec::new();
    let mut i: usize = 0;
    while i < HEADER_LEN
        invariant
            i <= HEADER_LEN,
            out@ == h@.take(i as int),
        decreases HEADER_LEN - i,
    {
        out.push(h[i]);
        assert(h@.take(i + 1) == h@.take(i as int).push(h@[i as int]));
        i += 1;
    }
    assert(h@.take(44) == h@);
    let mut j: usize = 0;
    while j < samples.len()
        invariant
            j <= samples@.len(),
            2 * samples@.len() + 36 <= u32::MAX,
            out@ == h@ + pcm_bytes(samples@.take(j as int)),
        decreases samples@.len() - j,
    {
        let u = bits_of(samples[j]);
        out.push((u % 256) as u8);
        out.push((u / 256) as u8);
        assert(pcm_bytes(samples@.take(j + 1)) =~= pcm_bytes(samples@.take(j as int)).push(
            lo(sample_bits(samples@[j as int])),
        ).push(hi(sample_bits(samples@[j as int]))));
        j += 1;
    }
    assert(samples@.take(samples@.len() as int) == samples@);
    out
}

/// A decoded file.
#[derive(Debug, Clone, PartialEq, Eq)]
pub struct Decoded {
    pub sample_rate: u32,
    pub channels: u16,
    pub samples: Vec<i16>,
}

/// The bytes start with the RIFF, WAVE and data markers at their places.
pub open spec fn has_markers(b: Seq<u8>) -> bool {
    &&& b.len() >= 44
    &&& b.subrange(0, 4) == riff()
    &&& b.subrange(8, 12) == wave()
    &&& b.subrange(36, 40) == data_tag()
}

/// Whether `decode` accepts the bytes: markers present and the declared data length equal to
/// the rest of the file.
pub open spec fn decodes(b: Seq<u8>) -> bool {
    has_markers(b) && b.len() == 44 + u32_of(b, 40)
}

fn read_u32(b: &[u8], at: usize) -> (v: u32)
    requires
        at + 4 <= b@.len(),
    ensures
        v == u32_of(b@, at as int),
{
    b[at] as u32 + 256 * b[at + 1] as u32 + 65536 * b[at + 2] as u32 + 16777216 * b[at + 3] as u32
}

fn read_u16(b: &[u8], at: usize) -> (v: u16)
    requires
        at + 2 <= b@.len(),
    ensures
        v == u16_of(b@, at as int),
{
    b[at] as u16 + 256 * b[at + 1] as u16
}

fn sample_from(b0: u8, b1: u8) -> (s: i16)
    ensures
        s == sample_of(b0, b1),
{
    let u: u32 = b0 as u32 + 256 * b1 as u32;
    if u >= 32768 {
        (u as i32 - 65536) as i16
    } else {
        u as i16
    }
}

fn markers_present(bytes: &[u8]) -> (b: bool)
    ensures
        b == has_markers(bytes@),
{
    if bytes.len() < HEADER_LEN {
        return false;
    }
    let ok = bytes[0] == 82 && bytes[1] == 73 && bytes[2] == 70 && bytes[3] == 70 && bytes[8] == 87
        && bytes[9] == 65 && bytes[10] == 86 && bytes[11] == 69 && bytes[36] == 100 && bytes[37]
        == 97 && bytes[38] == 116 && bytes[39] == 97;
    assert(ok ==> bytes@.subrange(0, 4) =~= riff());
    assert(ok ==> bytes@.subrange(8, 12) =~= wave());
    assert(ok ==> bytes@.subrange(36, 40) =~= data_tag());
    assert(bytes@.subrange(0, 4) == riff() ==> bytes@.subrange(0, 4)[0] == 82 && bytes@.subrange(0, 4)[1] == 73
        && bytes@.subrange(0, 4)[2] == 70 && bytes@.subrange(0, 4)[3] == 70);
    assert(bytes@.subrange(8, 12) == wave() ==> bytes@.subrange(8, 12)[0] == 87 && bytes@.subrange(8, 12)[1] == 65
        && bytes@.subrange(8, 12)[2] == 86 && bytes@.subrange(8, 12)[3] == 69);
    assert(bytes@.subrange(36, 40) == data_tag() ==> bytes@.subrange(36, 40)[0] == 100 && bytes@.subrange(36, 40)[1] == 97
        && bytes@.subrange(36, 40)[2] == 116 && bytes@.subrange(36, 40)[3] == 97);
    ok
}

/// The message for a file whose declared data length disagrees with its length.
pub open spec fn length_message(data_len: u32, file_len: nat) -> Seq<char> {
    seq!['d', 'a', 't', 'a', ' ', 'l', 'e', 'n', 'g', 't', 'h', ' '] + crate::text::decimal_text(
        data_len as nat,
    ) + seq![
        ' ', 'd', 'i', 's', 'a', 'g', 'r', 'e', 'e', 's', ' ', 'w', 'i', 't', 'h', ' ', 'f', 'i',
        'l', 'e', ' ', 'l', 'e', 'n', 'g', 't', 'h', ' ',
    ] + crate::text::decimal_text(file_len)
}

pub open spec fn not_a_wav_message() -> Seq<char> {
    seq!['n', 'o', 't', ' ', 'a', ' ', 'w', 'a', 'v']
}

fn append(out: &mut String, text: &str)
    ensures
        final(out)@ == old(out)@ + text@,
{
    let cs = crate::text::chars_of(text);
    let ghost start = old(out)@;
    let mut i: usize = 0;
    while i < cs.len()
        invariant
            i <= cs@.len(),
            out@ == start + cs@.take(i as int),
        decreases cs@.len() - i,
    {
        push_char(out, cs[i]);
        assert(cs@.take(i + 1) == cs@.take(i as int).push(cs@[i as int]));
        i += 1;
    }
    assert(cs@.take(cs@.len() as int) == cs@);
}

/// Decode a complete WAV file; a header whose data length disagrees with the file is an error.
pub fn decode(bytes: &[u8]) -> (r: Result<Decoded, String>)
    ensures
        !has_markers(bytes@) ==> (r matches Err(m) && m@ == not_a_wav_message()),
        has_markers(bytes@) && !decodes(bytes@) ==> (r matches Err(m) && m@ == length_message(
            u32_of(bytes@, 40),
            bytes@.len(),
        )),
        decodes(bytes@) ==> (r matches Ok(d) && d.sample_rate == u32_of(bytes@, 24) && d.channels
            == u16_of(bytes@, 22) && d.samples@ == samples_of(bytes@, 44)),
{
    if !markers_present(bytes) {
        let mut m = String::new();
        append(&mut m, "not a wav");
        proof {
            reveal_strlit("not a wav");
        }
        assert(m@ =~= not_a_wav_message());
        return Err(m);
    }
    let channels = read_u16(bytes, 22);
    let sample_rate = read_u32(bytes, 24);
    let data_len = read_u32(bytes, 40);
    if bytes.len() as u64 != 44 + data_len as u64 {
        let mut m = String::new();
        append(&mut m, "data length ");
        append(&mut m, decimal(data_len as u64).as_str());
        append(&mut m, " disagrees with file length ");
        append(&mut m, decimal(bytes.len() as u64).as_str());
        proof {
            reveal_strlit("data length ");
            reveal_strlit(" disagrees with file length ");
        }
        assert(m@ =~= length_message(data_len, bytes@.len()));
        return Err(m);
    }
    let n = (bytes.len() - HEADER_LEN) / 2;
    let mut samples: Vec<i16> = Vec::new();
    let mut i: usize = 0;
    while i < n
        invariant
            n == (bytes@.len() - 44) / 2,
            bytes@.len() >= 44,
            2 * n + 44 <= bytes@.len(),
            bytes@.len() <= usize::MAX,
            i <= n,
            samples@ == samples_of(bytes@, 44).take(i as int),
        decreases n - i,
    {
        assert(2 * i + 46 <= bytes@.len());
        let at: usize = 44 + 2 * i;
        samples.push(sample_from(bytes[at], bytes[at + 1]));
        assert(samples_of(bytes@, 44).take(i + 1) =~= samples_of(bytes@, 44).take(i as int).push(
            samples_of(bytes@, 44)[i as int],
        ));
        i += 1;
    }
    assert(samples_of(bytes@, 44).take(n as int) =~= samples_of(bytes@, 44));
    Ok(Decoded { sample_rate, channels, samples })
}

/// The number of bytes of complete frames after the header, with at least one channel.
pub open spec fn complete_len(b: Seq<u8>) -> int {
    let channels = if u16_of(b, 22) == 0 { 1 } else { u16_of(b, 22) as int };
    ((b.len() - 44) / (2 * channels)) * (2 * channels)
}

/// The channel count a repair writes (a declared zero becomes one).
pub open spec fn repair_channels(b: Seq<u8>) -> u16 {
    if u16_of(b, 22) == 0 { 1 } else { u16_of(b, 22) }
}

/// The repaired file: a header for the complete frames, then those frames.
pub open spec fn repaired_bytes(b: Seq<u8>) -> Seq<u8> {
    header_bytes(u32_of(b, 24), repair_channels(b), complete_len(b) as u32) + b.subrange(
        44,
        44 + complete_len(b),
    )
}

/// Whether `repair_part` can write a header for what it keeps.
pub open spec fn repair_fits(b: Seq<u8>) -> bool {
    b.len() >= 46 ==> header_fits(u32_of(b, 24), repair_channels(b), complete_len(b) as u32)
        && complete_len(b) + 36 <= u32::MAX
}

/// Whether `repair_part` can rewrite this partial file's header: the complete frames' length,
/// the block alignment and the byte rate all fit their fields.
pub fn repair_part_fits(bytes: &[u8]) -> (r: bool)
    ensures
        r == repair_fits(bytes@),
{
    if bytes.len() < 46 {
        return true;
    }
    let rate = read_u32(bytes, 24) as u64;
    let declared = read_u16(bytes, 22) as u64;
    let channels: u64 = if declared == 0 { 1 } else { declared };
    let frame: u64 = 2 * channels;
    let body: u64 = bytes.len() as u64 - 44;
    let whole: u64 = body / frame;
    proof {
        assert(whole * frame <= body) by (nonlinear_arith)
            requires whole == body / frame, frame > 0;
    }
    let complete: u64 = whole * frame;
    assert(complete as int == complete_len(bytes@));
    if complete > u32::MAX as u64 - 36 || frame > u16::MAX as u64 {
        return false;
    }
    proof {
        assert(rate * frame <= 0xffff_ffff * 0x1_fffe) by (nonlinear_arith)
            requires rate <= 0xffff_ffff, frame <= 0x1_fffe;
    }
    rate * frame <= u32::MAX as u64
}

/// Repair a partial file: keep every complete frame and rewrite the header to the real length.
/// Returns `None` when not even one complete frame is present.
pub fn repair_part(bytes: &[u8]) -> (r: Option<Vec<u8>>)
    requires
        repair_fits(bytes@),
    ensures
        bytes@.len() < 46 || bytes@.subrange(0, 4) != riff() || complete_len(bytes@) == 0 ==> r
            is None,
        !(bytes@.len() < 46 || bytes@.subrange(0, 4) != riff() || complete_len(bytes@) == 0) ==> (r matches Some(out)
            && out@ == repaired_bytes(bytes@)),
{
    if bytes.len() < 46 {
        return None;
    }
    let is_riff = bytes[0] == 82 && bytes[1] == 73 && bytes[2] == 70 && bytes[3] == 70;
    assert(is_riff == (bytes@.subrange(0, 4) == riff())) by {
        if bytes@.subrange(0, 4) == riff() {
            assert(bytes@.subrange(0, 4)[0] == 82 && bytes@.subrange(0, 4)[1] == 73);
            assert(bytes@.subrange(0, 4)[2] == 70 && bytes@.subrange(0, 4)[3] == 70);
        }
        if is_riff {
            assert(bytes@.subrange(0, 4) =~= riff());
        }
    }
    if !is_riff {
        return None;
    }
    let declared = read_u16(bytes, 22);
    let channels: u16 = if declared == 0 { 1 } else { declared };
    let sample_rate = read_u32(bytes, 24);
    let frame: usize = channels as usize * 2;
    let complete: usize = (bytes.len() - HEADER_LEN) / frame * frame;
    assert(complete as int == complete_len(bytes@));
    if complete == 0 {
        return None;
    }
    assert(complete <= bytes@.len() - 44) by (nonlinear_arith)
        requires
            complete == (bytes@.len() - 44) / (frame as int) * frame,
            frame > 0,
            bytes@.len() >= 44,
    ;
    let h = header(sample_rate, channels, complete as u32);
    let mut out: Vec<u8> = Vec::new();
    let mut i: usize = 0;
    while i < HEADER_LEN
        invariant
            i <= HEADER_LEN,
            out@ == h@.take(i as int),
        decreases HEADER_LEN - i,
    {
        out.push(h[i]);
        assert(h@.take(i + 1) == h@.take(i as int).push(h@[i as int]));
        i += 1;
    }
    assert(h@.take(44) == h@);
    let end: usize = HEADER_LEN + complete;
    let mut j: usize = HEADER_LEN;
    while j < end
        invariant
            end == 44 + complete,
            44 <= j <= 44 + complete,
            44 + complete <= bytes@.len(),
            out@ == h@ + bytes@.subrange(44, j as int),
        decreases 44 + complete - j,
    {
        out.push(bytes[j]);
        assert(bytes@.subrange(44, j + 1) == bytes@.subrange(44, j as int).push(bytes@[j as int]));
        j += 1;
    }
    Some(out)
}

proof fn lemma_le32(v: u32)
    ensures
        u32_of(le32(v), 0) == v,
{
    assert((v % 256) + 256 * ((v / 256) % 256) + 65536 * ((v / 65536) % 256) + 16777216 * (v
        / 16777216) == v) by (nonlinear_arith);
}

proof fn lemma_le16(v: u16)
    ensures
        u16_of(le16(v), 0) == v,
{
    assert((v % 256) + 256 * (v / 256) == v) by (nonlinear_arith);
}

proof fn lemma_sample_roundtrip(s: i16)
    ensures
        sample_of(lo(sample_bits(s)), hi(sample_bits(s))) == s,
{
    let u = sample_bits(s);
    assert((u % 256) + 256 * (u / 256) == u) by (nonlinear_arith);
}

/// What `encode` writes, `decode` reads back: the same rate, channel count and samples.
pub proof fn law_decode_reads_encode(sample_rate: u32, channels: u16, samples: Seq<i16>)
    requires
        2 * samples.len() + 36 <= u32::MAX,
        header_fits(sample_rate, channels, (2 * samples.len()) as u32),
    ensures
        decodes(wav_bytes(sample_rate, channels, samples)),
        u32_of(wav_bytes(sample_rate, channels, samples), 24) == sample_rate,
        u16_of(wav_bytes(sample_rate, channels, samples), 22) == channels,
        samples_of(wav_bytes(sample_rate, channels, samples), 44) == samples,
{
    let b = wav_bytes(sample_rate, channels, samples);
    let h = header_bytes(sample_rate, channels, (2 * samples.len()) as u32);
    assert(h.len() == 44);
    assert(b.subrange(0, 4) =~= riff());
    assert(b.subrange(8, 12) =~= wave());
    assert(b.subrange(36, 40) =~= data_tag());
    lemma_le32((2 * samples.len()) as u32);
    assert(b.subrange(40, 44) =~= le32((2 * samples.len()) as u32));
    assert(u32_of(b, 40) == u32_of(le32((2 * samples.len()) as u32), 0));
    lemma_le32(sample_rate);
    assert(b.subrange(24, 28) =~= le32(sample_rate));
    assert(u32_of(b, 24) == u32_of(le32(sample_rate), 0));
    lemma_le16(channels);
    assert(b.subrange(22, 24) =~= le16(channels));
    assert(u16_of(b, 22) == u16_of(le16(channels), 0));
    let got = samples_of(b, 44);
    assert forall|i: int| 0 <= i < samples.len() implies got[i] == samples[i] by {
        lemma_sample_roundtrip(samples[i]);
        assert(b[44 + 2 * i] == pcm_bytes(samples)[2 * i]);
        assert(b[44 + 2 * i + 1] == pcm_bytes(samples)[2 * i + 1]);
        assert((2 * i) / 2 == i);
        assert((2 * i + 1) / 2 == i);
        assert((2 * i) % 2 == 0);
        assert((2 * i + 1) % 2 == 1);
    }
    assert(got =~= samples);
}

/// A WAV chunk is 44 header bytes followed by the samples in order, each as two bytes: first
/// the low byte, then the high byte of its 16-bit two's-complement value (little-endian PCM, as
/// every reader of the format expects).
pub proof fn law_samples_are_little_endian_after_the_header(
    sample_rate: u32,
    channels: u16,
    samples: Seq<i16>,
)
    ensures
        wav_bytes(sample_rate, channels, samples).len() == 44 + 2 * samples.len(),
        forall|i: int|
            0 <= i < samples.len() ==> {
                let u = (samples[i] as int + 65536) % 65536;
                &&& #[trigger] wav_bytes(sample_rate, channels, samples)[44 + 2 * i] as int == u % 256
                &&& wav_bytes(sample_rate, channels, samples)[44 + 2 * i + 1] as int == u / 256
            },
{
    let h = header_bytes(sample_rate, channels, (2 * samples.len()) as u32);
    assert(h.len() == 44);
    let b = wav_bytes(sample_rate, channels, samples);
    let p = pcm_bytes(samples);
    assert forall|i: int| 0 <= i < samples.len() implies {
        let u = (samples[i] as int + 65536) % 65536;
        &&& #[trigger] b[44 + 2 * i] as int == u % 256
        &&& b[44 + 2 * i + 1] as int == u / 256
    } by {
        assert(b[44 + 2 * i] == p[2 * i]);
        assert(b[44 + 2 * i + 1] == p[2 * i + 1]);
        assert((2 * i) % 2 == 0 && (2 * i) / 2 == i);
        assert((2 * i + 1) % 2 == 1 && (2 * i + 1) / 2 == i);
        let v = sample_bits(samples[i]);
        assert(v as int == (samples[i] as int + 65536) % 65536);
    }
}

/// Reading samples from a byte pair at a time is the inverse layout: the sample read from bytes
/// `at + 2i` and `at + 2i + 1` has the first as the low byte and the second as the high byte of
/// its 16-bit two's-complement value.
pub proof fn law_samples_read_little_endian(b: Seq<u8>, at: int)
    requires
        0 <= at <= b.len(),
    ensures
        forall|i: int|
            0 <= i < samples_of(b, at).len() ==> {
                let u = (#[trigger] samples_of(b, at)[i] as int + 65536) % 65536;
                &&& at + 2 * i + 1 < b.len()
                &&& b[at + 2 * i] as int == u % 256
                &&& b[at + 2 * i + 1] as int == u / 256
            },
{
    assert forall|i: int| 0 <= i < samples_of(b, at).len() implies {
        let u = (#[trigger] samples_of(b, at)[i] as int + 65536) % 65536;
        &&& at + 2 * i + 1 < b.len()
        &&& b[at + 2 * i] as int == u % 256
        &&& b[at + 2 * i + 1] as int == u / 256
    } by {
        assert(i < (b.len() - at) / 2);
        assert(at + 2 * i + 1 < b.len());
        let lo_b = b[at + 2 * i] as int;
        let hi_b = b[at + 2 * i + 1] as int;
        assert(0 <= lo_b < 256 && 0 <= hi_b < 256);
        assert(samples_of(b, at)[i] == sample_of(b[at + 2 * i], b[at + 2 * i + 1]));
        assert((samples_of(b, at)[i] as int + 65536) % 65536 == lo_b + 256 * hi_b);
    }
}

} // verus!
