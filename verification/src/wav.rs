//! Minimal 16-bit PCM WAV encoding.
//!
//! The header is 44 bytes. There is exactly one sample encoding here, and everything goes
//! through it: two code paths that should agree must not be able to disagree.

use vstd::prelude::*;

verus! {

/// Mono audio: PCM samples and the rate they play at, which travel together so that the two
/// cannot get out of step.
pub struct Audio {
    pub samples: Vec<i16>,
    pub sample_rate: u32,
}

/// A 16-bit number, low byte first.
pub open spec fn le16(x: int) -> Seq<u8> {
    seq![(x % 256) as u8, (x / 256 % 256) as u8]
}

/// A 32-bit number, low byte first.
pub open spec fn le32(x: int) -> Seq<u8> {
    seq![
        (x % 256) as u8,
        (x / 256 % 256) as u8,
        (x / 65536 % 256) as u8,
        (x / 16777216 % 256) as u8,
    ]
}

/// A sample in two's complement.
pub open spec fn two_complement(x: i16) -> int {
    if x < 0 {
        x + 65536
    } else {
        x as int
    }
}

/// Samples as PCM data: two bytes each, low byte first.
pub open spec fn pcm(samples: Seq<i16>) -> Seq<u8>
    decreases samples.len(),
{
    if samples.len() == 0 {
        Seq::empty()
    } else {
        pcm(samples.drop_last()) + le16(two_complement(samples.last()))
    }
}

/// The four bytes `RIFF`.
pub open spec fn riff() -> Seq<u8> {
    seq![0x52, 0x49, 0x46, 0x46]
}

/// The eight bytes `WAVEfmt `.
pub open spec fn wave_fmt() -> Seq<u8> {
    seq![0x57, 0x41, 0x56, 0x45, 0x66, 0x6d, 0x74, 0x20]
}

/// The four bytes `data`.
pub open spec fn data_tag() -> Seq<u8> {
    seq![0x64, 0x61, 0x74, 0x61]
}

/// The 44-byte header: a RIFF file with one mono 16-bit PCM chunk of `data` bytes.
pub open spec fn header(rate: int, data: int) -> Seq<u8> {
    riff() + le32(36 + data) + wave_fmt() + le32(16) + le16(1) + le16(1) + le32(rate) + le32(
        rate * 2,
    ) + le16(2) + le16(16) + data_tag() + le32(data)
}

/// The whole file.
pub open spec fn file(samples: Seq<i16>, rate: int) -> Seq<u8> {
    header(rate, 2 * samples.len() as int) + pcm(samples)
}

fn push16(out: &mut Vec<u8>, x: u32)
    requires
        x < 65536,
    ensures
        final(out)@ == old(out)@ + le16(x as int),
{
    out.push((x % 256) as u8);
    out.push((x / 256) as u8);
    assert(out@ =~= old(out)@ + le16(x as int));
}

fn push32(out: &mut Vec<u8>, x: u32)
    ensures
        final(out)@ == old(out)@ + le32(x as int),
{
    out.push((x % 256) as u8);
    out.push((x / 256 % 256) as u8);
    out.push((x / 65536 % 256) as u8);
    out.push((x / 16777216) as u8);
    assert(out@ =~= old(out)@ + le32(x as int));
}

fn push_sample(out: &mut Vec<u8>, x: i16)
    ensures
        final(out)@ == old(out)@ + le16(two_complement(x)),
{
    let w: i32 = if x < 0 {
        x as i32 + 65536
    } else {
        x as i32
    };
    push16(out, w as u32);
}

fn push_samples(out: &mut Vec<u8>, samples: &[i16])
    ensures
        final(out)@ == old(out)@ + pcm(samples@),
{
    let mut i: usize = 0;
    assert(out@ + pcm(samples@.take(0)) =~= out@);
    while i < samples.len()
        invariant
            i <= samples@.len(),
            out@ == old(out)@ + pcm(samples@.take(i as int)),
        decreases samples@.len() - i,
    {
        push_sample(out, samples[i]);
        i += 1;
        proof {
            let next = samples@.take(i as int);
            assert(next.drop_last() =~= samples@.take(i - 1));
            assert(old(out)@ + pcm(next.drop_last()) + le16(two_complement(next.last()))
                =~= old(out)@ + pcm(next));
        }
    }
    assert(samples@.take(i as int) =~= samples@);
}

/// Mono 16-bit PCM samples as little-endian bytes.
pub fn pcm_s16le(samples: &[i16]) -> (out: Vec<u8>)
    ensures
        out@ == pcm(samples@),
{
    let mut out: Vec<u8> = Vec::new();
    push_samples(&mut out, samples);
    assert(Seq::<u8>::empty() + pcm(samples@) =~= pcm(samples@));
    out
}

/// A complete WAV file in memory.
///
/// The sizes in the header are 32-bit, which bounds the samples that one file can hold.
pub fn to_bytes(audio: &Audio) -> (out: Vec<u8>)
    requires
        36 + 2 * audio.samples@.len() <= u32::MAX,
        2 * audio.sample_rate <= u32::MAX,
    ensures
        out@ == file(audio.samples@, audio.sample_rate as int),
{
    let rate: u32 = audio.sample_rate;
    let data: u32 = audio.samples.len() as u32 * 2;
    let mut out: Vec<u8> = Vec::new();
    out.push(0x52);
    out.push(0x49);
    out.push(0x46);
    out.push(0x46);
    assert(out@ =~= riff());
    push32(&mut out, 36 + data);
    let ghost at8 = out@;
    out.push(0x57);
    out.push(0x41);
    out.push(0x56);
    out.push(0x45);
    out.push(0x66);
    out.push(0x6d);
    out.push(0x74);
    out.push(0x20);
    assert(out@ =~= at8 + wave_fmt());
    push32(&mut out, 16);
    push16(&mut out, 1);
    push16(&mut out, 1);
    push32(&mut out, rate);
    push32(&mut out, rate * 2);
    push16(&mut out, 2);
    push16(&mut out, 16);
    let ghost at36 = out@;
    out.push(0x64);
    out.push(0x61);
    out.push(0x74);
    out.push(0x61);
    assert(out@ =~= at36 + data_tag());
    push32(&mut out, data);
    push_samples(&mut out, audio.samples.as_slice());
    out
}

/// PCM data is two bytes per sample, and each pair of bytes is its sample.
pub proof fn lemma_pcm(samples: Seq<i16>)
    ensures
        pcm(samples).len() == 2 * samples.len(),
        forall|i: int|
            0 <= i < samples.len() ==> pcm(samples)[2 * i] + 256 * pcm(samples)[2 * i + 1]
                == #[trigger] two_complement(samples[i]),
    decreases samples.len(),
{
    if samples.len() > 0 {
        lemma_pcm(samples.drop_last());
        let x = two_complement(samples.last());
        let before = pcm(samples.drop_last());
        assert forall|i: int| 0 <= i < samples.len() implies pcm(samples)[2 * i] + 256 * pcm(
            samples,
        )[2 * i + 1] == #[trigger] two_complement(samples[i]) by {
            if i < samples.len() - 1 {
                assert(samples.drop_last()[i] == samples[i]);
                assert(two_complement(samples.drop_last()[i]) == two_complement(samples[i]));
                assert(pcm(samples)[2 * i] == before[2 * i]);
                assert(pcm(samples)[2 * i + 1] == before[2 * i + 1]);
            } else {
                assert(pcm(samples)[2 * i] == (x % 256) as u8);
                assert(pcm(samples)[2 * i + 1] == (x / 256 % 256) as u8);
            }
        }
    }
}

/// The header is 44 bytes, and the file holds two more for each sample.
pub proof fn file_length(samples: Seq<i16>, rate: int)
    ensures
        header(rate, 2 * samples.len() as int).len() == 44,
        file(samples, rate).len() == 44 + 2 * samples.len(),
{
    lemma_pcm(samples);
}

/// A file determines the audio it was written from.
pub proof fn files_tell_audio_apart(a: Seq<i16>, rate_a: u32, b: Seq<i16>, rate_b: u32)
    requires
        file(a, rate_a as int) == file(b, rate_b as int),
    ensures
        a == b,
        rate_a == rate_b,
{
    file_length(a, rate_a as int);
    file_length(b, rate_b as int);
    lemma_pcm(a);
    lemma_pcm(b);
    let f = file(a, rate_a as int);
    assert(f.subrange(44, f.len() as int) =~= pcm(a));
    assert(f.subrange(44, f.len() as int) =~= pcm(b));
    assert forall|i: int| 0 <= i < a.len() implies a[i] == b[i] by {
        assert(two_complement(a[i]) == two_complement(b[i]));
    }
    assert(a =~= b);
    assert(f.subrange(24, 28) =~= le32(rate_a as int));
    assert(f.subrange(24, 28) =~= le32(rate_b as int));
    lemma_le32(rate_a);
    lemma_le32(rate_b);
    assert(le32(rate_a as int) == le32(rate_b as int));
}

proof fn lemma_le32(x: u32)
    ensures
        x == le32(x as int)[0] + 256 * le32(x as int)[1] + 65536 * le32(x as int)[2] + 16777216
            * le32(x as int)[3],
{
}

/// The 16-bit number that a file holds at a place, low byte first.
pub open spec fn read16(f: Seq<u8>, at: int) -> int {
    f[at] + 256 * f[at + 1]
}

/// The 32-bit number that a file holds at a place, low byte first.
pub open spec fn read32(f: Seq<u8>, at: int) -> int {
    f[at] + 256 * f[at + 1] + 65536 * f[at + 2] + 16777216 * f[at + 3]
}

/// What a reader of RIFF files finds: the tags at their places, the size of what follows each
/// size, the format of one channel of 16-bit PCM at the rate, and behind it the samples.
#[verifier::rlimit(50)]
pub proof fn a_file_reads_as_riff(samples: Seq<i16>, rate: int)
    requires
        36 + 2 * samples.len() <= u32::MAX,
        0 <= 2 * rate <= u32::MAX,
    ensures
        ({
            let f = file(samples, rate);
            &&& f.len() == 44 + 2 * samples.len()
            &&& f[0] == 'R' as u32 && f[1] == 'I' as u32 && f[2] == 'F' as u32 && f[3]
                == 'F' as u32
            &&& read32(f, 4) == f.len() - 8
            &&& f[8] == 'W' as u32 && f[9] == 'A' as u32 && f[10] == 'V' as u32 && f[11]
                == 'E' as u32
            &&& f[12] == 'f' as u32 && f[13] == 'm' as u32 && f[14] == 't' as u32 && f[15]
                == ' ' as u32
            &&& read32(f, 16) == 16
            &&& read16(f, 20) == 1
            &&& read16(f, 22) == 1
            &&& read32(f, 24) == rate
            &&& read32(f, 28) == 2 * rate
            &&& read16(f, 32) == 2
            &&& read16(f, 34) == 16
            &&& f[36] == 'd' as u32 && f[37] == 'a' as u32 && f[38] == 't' as u32 && f[39]
                == 'a' as u32
            &&& read32(f, 40) == f.len() - 44
            &&& forall|i: int|
                0 <= i < samples.len() ==> (#[trigger] samples[i]) == (if read16(f, 44 + 2 * i)
                    < 32768 {
                    read16(f, 44 + 2 * i)
                } else {
                    read16(f, 44 + 2 * i) - 65536
                })
        }),
{
    let f = file(samples, rate);
    let n = 2 * samples.len() as int;
    lemma_pcm(samples);
    let h = header(rate, n);
    assert(h.len() == 44);
    assert(h.subrange(0, 4) =~= riff());
    assert(h.subrange(4, 8) =~= le32(36 + n));
    assert(h.subrange(8, 16) =~= wave_fmt());
    assert(h.subrange(16, 20) =~= le32(16));
    assert(h.subrange(20, 22) =~= le16(1));
    assert(h.subrange(22, 24) =~= le16(1));
    assert(h.subrange(24, 28) =~= le32(rate));
    assert(h.subrange(28, 32) =~= le32(rate * 2));
    assert(h.subrange(32, 34) =~= le16(2));
    assert(h.subrange(34, 36) =~= le16(16));
    assert(h.subrange(36, 40) =~= data_tag());
    assert(h.subrange(40, 44) =~= le32(n));
    assert forall|k: int| 0 <= k < 44 implies #[trigger] f[k] == h[k] by {}
    lemma_read32(h, 4, 36 + n);
    lemma_read32(h, 16, 16);
    lemma_read32(h, 24, rate);
    lemma_read32(h, 28, rate * 2);
    lemma_read32(h, 40, n);
    lemma_read16(h, 20, 1);
    lemma_read16(h, 22, 1);
    lemma_read16(h, 32, 2);
    lemma_read16(h, 34, 16);
    assert forall|k: int| 0 <= k < 4 implies h[k] == #[trigger] riff()[k] by {
        assert(h[k] == h.subrange(0, 4)[k]);
    }
    assert forall|k: int| 0 <= k < 4 implies h[36 + k] == #[trigger] data_tag()[k] by {
        assert(h[36 + k] == h.subrange(36, 40)[k]);
    }
    assert forall|k: int| 0 <= k < 8 implies h[8 + k] == #[trigger] wave_fmt()[k] by {
        assert(h[8 + k] == h.subrange(8, 16)[k]);
    }
    assert(riff()[0] == h[0] && riff()[1] == h[1] && riff()[2] == h[2] && riff()[3] == h[3]);
    assert(wave_fmt()[0] == h[8] && wave_fmt()[1] == h[9] && wave_fmt()[2] == h[10] && wave_fmt()[3]
        == h[11] && wave_fmt()[4] == h[12] && wave_fmt()[5] == h[13] && wave_fmt()[6] == h[14]
        && wave_fmt()[7] == h[15]);
    assert(data_tag()[0] == h[36] && data_tag()[1] == h[37] && data_tag()[2] == h[38]
        && data_tag()[3] == h[39]);
    assert forall|i: int| 0 <= i < samples.len() implies (#[trigger] samples[i]) == (if read16(
        f,
        44 + 2 * i,
    ) < 32768 {
        read16(f, 44 + 2 * i)
    } else {
        read16(f, 44 + 2 * i) - 65536
    }) by {
        assert(f[44 + 2 * i] == pcm(samples)[2 * i]);
        assert(f[44 + 2 * i + 1] == pcm(samples)[2 * i + 1]);
        assert(read16(f, 44 + 2 * i) == two_complement(samples[i]));
    }
}

proof fn lemma_read32(h: Seq<u8>, at: int, x: int)
    requires
        0 <= at,
        at + 4 <= h.len(),
        h.subrange(at, at + 4) == le32(x),
        0 <= x <= u32::MAX,
    ensures
        read32(h, at) == x,
{
    lemma_le32(x as u32);
    assert(h.subrange(at, at + 4)[0] == h[at]);
    assert(h.subrange(at, at + 4)[1] == h[at + 1]);
    assert(h.subrange(at, at + 4)[2] == h[at + 2]);
    assert(h.subrange(at, at + 4)[3] == h[at + 3]);
}

proof fn lemma_read16(h: Seq<u8>, at: int, x: int)
    requires
        0 <= at,
        at + 2 <= h.len(),
        h.subrange(at, at + 2) == le16(x),
        0 <= x < 65536,
    ensures
        read16(h, at) == x,
{
    assert(h.subrange(at, at + 2)[0] == h[at]);
    assert(h.subrange(at, at + 2)[1] == h[at + 1]);
}

} // verus!
