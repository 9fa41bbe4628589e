//! RIFF/WAVE files: reading the PCM samples out of one and wrapping samples
//! into one.
use vstd::prelude::*;
use vstd::slice::slice_subrange;

verus! {

/// Why a file is not taken as PCM audio.
#[derive(Debug, Clone, Copy, PartialEq, Eq, Structural)]
pub enum WavError {
    NotRiff,
    SizeOverflow,
    Truncated,
    UnsupportedEncoding,
    NoFormat,
    NoData,
    TooLarge,
}

impl WavError {
    pub open spec fn text(self) -> Seq<char> {
        match self {
            WavError::NotRiff => "not a RIFF/WAVE file"@,
            WavError::SizeOverflow => "WAV chunk size overflow"@,
            WavError::Truncated => "truncated WAV chunk"@,
            WavError::UnsupportedEncoding => "unsupported WAV encoding"@,
            WavError::NoFormat => "WAV has no fmt chunk"@,
            WavError::NoData => "WAV has no data chunk"@,
            WavError::TooLarge => "WAV chunk exceeds RIFF size"@,
        }
    }

    /// The message for a log or a client.
    pub fn message(&self) -> (text: &'static str)
        ensures
            text@ == self.text(),
    {
        match self {
            WavError::NotRiff => "not a RIFF/WAVE file",
            WavError::SizeOverflow => "WAV chunk size overflow",
            WavError::Truncated => "truncated WAV chunk",
            WavError::UnsupportedEncoding => "unsupported WAV encoding",
            WavError::NoFormat => "WAV has no fmt chunk",
            WavError::NoData => "WAV has no data chunk",
            WavError::TooLarge => "WAV chunk exceeds RIFF size",
        }
    }
}

/// Why the recorded segments do not make up a recording.
#[derive(Debug, Clone, Copy, PartialEq, Eq, Structural)]
pub enum RecordingError {
    InvalidFile,
    NoAudioData,
    Empty,
}

impl RecordingError {
    pub open spec fn text(self) -> Seq<char> {
        match self {
            RecordingError::InvalidFile => "recorder produced an invalid WAV file"@,
            RecordingError::NoAudioData => "recorder WAV file has no audio data"@,
            RecordingError::Empty => "meeting recording contained no audio"@,
        }
    }

    /// The message for the user.
    pub fn message(&self) -> (text: &'static str)
        ensures
            text@ == self.text(),
    {
        match self {
            RecordingError::InvalidFile => "recorder produced an invalid WAV file",
            RecordingError::NoAudioData => "recorder WAV file has no audio data",
            RecordingError::Empty => "meeting recording contained no audio",
        }
    }
}

/// PCM audio as a WAVE file holds it.
pub struct PcmWav<'a> {
    pub sample_rate: u32,
    pub channels: u16,
    pub bits_per_sample: u16,
    pub data: &'a [u8],
}

/// What a `PcmWav` says, with the samples as a sequence.
#[verifier::ext_equal]
pub struct WavContent {
    pub sample_rate: int,
    pub channels: int,
    pub bits_per_sample: int,
    pub data: Seq<u8>,
}

impl<'a> View for PcmWav<'a> {
    type V = WavContent;

    open spec fn view(&self) -> WavContent {
        WavContent {
            sample_rate: self.sample_rate as int,
            channels: self.channels as int,
            bits_per_sample: self.bits_per_sample as int,
            data: self.data@,
        }
    }
}

// ---------------------------------------------------------------------------
// Little-endian numbers
// ---------------------------------------------------------------------------

/// The number in the two bytes at `at`.
pub open spec fn le_u16(bytes: Seq<u8>, at: int) -> int {
    bytes[at] + 256 * bytes[at + 1]
}

/// The number in the four bytes at `at`.
pub open spec fn le_u32(bytes: Seq<u8>, at: int) -> int {
    bytes[at] + 256 * bytes[at + 1] + 65536 * bytes[at + 2] + 16777216 * bytes[at + 3]
}

/// The two bytes of a number.
pub open spec fn le2(n: int) -> Seq<u8> {
    seq![(n % 256) as u8, ((n / 256) % 256) as u8]
}

/// The four bytes of a number.
pub open spec fn le4(n: int) -> Seq<u8> {
    seq![
        (n % 256) as u8,
        ((n / 256) % 256) as u8,
        ((n / 65536) % 256) as u8,
        ((n / 16777216) % 256) as u8,
    ]
}

fn read_u16(bytes: &[u8], at: usize) -> (n: u16)
    requires
        at + 2 <= bytes.len(),
    ensures
        n == le_u16(bytes@, at as int),
{
    bytes[at] as u16 + 256 * (bytes[at + 1] as u16)
}

fn read_u32(bytes: &[u8], at: usize) -> (n: u32)
    requires
        at + 4 <= bytes.len(),
    ensures
        n == le_u32(bytes@, at as int),
{
    bytes[at] as u32 + 256 * (bytes[at + 1] as u32) + 65536 * (bytes[at + 2] as u32) + 16777216 * (
    bytes[at + 3] as u32)
}

fn push_u16(out: &mut Vec<u8>, n: u16)
    ensures
        final(out)@ == old(out)@ + le2(n as int),
{
    out.push((n % 256) as u8);
    out.push(((n / 256) % 256) as u8);
    proof {
        assert(out@ =~= old(out)@ + le2(n as int));
    }
}

fn push_u32(out: &mut Vec<u8>, n: u32)
    ensures
        final(out)@ == old(out)@ + le4(n as int),
{
    out.push((n % 256) as u8);
    out.push(((n / 256) % 256) as u8);
    out.push(((n / 65536) % 256) as u8);
    out.push(((n / 16777216) % 256) as u8);
    proof {
        assert(out@ =~= old(out)@ + le4(n as int));
    }
}

fn push_tag(out: &mut Vec<u8>, a: u8, b: u8, c: u8, d: u8)
    ensures
        final(out)@ == old(out)@ + seq![a, b, c, d],
{
    out.push(a);
    out.push(b);
    out.push(c);
    out.push(d);
    proof {
        assert(out@ =~= old(out)@ + seq![a, b, c, d]);
    }
}

/// Appends bytes.
pub fn push_bytes(out: &mut Vec<u8>, bytes: &[u8])
    ensures
        final(out)@ == old(out)@ + bytes@,
{
    out.extend_from_slice(bytes);
    proof {
        assert(out@ =~= old(out)@ + bytes@);
    }
}

fn has_tag(bytes: &[u8], at: usize, a: u8, b: u8, c: u8, d: u8) -> (r: bool)
    requires
        at + 4 <= bytes.len(),
    ensures
        r == (bytes@.subrange(at as int, at + 4) == seq![a, b, c, d]),
{
    let r = bytes[at] == a && bytes[at + 1] == b && bytes[at + 2] == c && bytes[at + 3] == d;
    proof {
        let tag = bytes@.subrange(at as int, at + 4);
        assert(tag[0] == bytes@[at as int] && tag[1] == bytes@[at + 1] && tag[2] == bytes@[at + 2]
            && tag[3] == bytes@[at + 3]);
        if r {
            assert(tag =~= seq![a, b, c, d]);
        }
    }
    r
}

// ---------------------------------------------------------------------------
// The chunks of a RIFF file
// ---------------------------------------------------------------------------

/// `RIFF`
pub open spec fn riff_tag() -> Seq<u8> {
    seq![82u8, 73u8, 70u8, 70u8]
}

/// `WAVE`
pub open spec fn wave_tag() -> Seq<u8> {
    seq![87u8, 65u8, 86u8, 69u8]
}

/// `fmt `
pub open spec fn format_tag() -> Seq<u8> {
    seq![102u8, 109u8, 116u8, 32u8]
}

/// `data`
pub open spec fn data_tag() -> Seq<u8> {
    seq![100u8, 97u8, 116u8, 97u8]
}

/// A chunk of a RIFF file: its tag, and where its content starts and how long
/// it is.
pub struct RiffChunk {
    pub tag: Seq<u8>,
    pub start: int,
    pub size: int,
}

/// How the chunks of a file end.
pub enum RiffEnd {
    /// No room is left for another chunk.
    Complete,
    /// A chunk is longer than the file.
    Truncated,
    /// The end of a chunk is no position at all.
    Overflow,
}

/// Whether the file starts as a WAVE file does.
pub open spec fn is_wave(bytes: Seq<u8>) -> bool {
    &&& bytes.len() >= 12
    &&& bytes.subrange(0, 4) == riff_tag()
    &&& bytes.subrange(8, 12) == wave_tag()
}

/// The chunk at `offset`.
pub open spec fn chunk_at(bytes: Seq<u8>, offset: int) -> RiffChunk {
    RiffChunk {
        tag: bytes.subrange(offset, offset + 4),
        start: offset + 8,
        size: le_u32(bytes, offset + 4),
    }
}

/// The position behind a chunk: content of odd length is followed by one byte of
/// padding.
pub open spec fn behind(chunk: RiffChunk) -> int {
    chunk.start + chunk.size + chunk.size % 2
}

/// The whole chunks from `offset` on, up to one that does not fit in the file.
pub open spec fn riff_chunks(bytes: Seq<u8>, offset: int) -> Seq<RiffChunk>
    decreases bytes.len() + 1 - offset,
{
    if offset < 0 || offset + 8 > bytes.len() {
        Seq::empty()
    } else {
        let chunk = chunk_at(bytes, offset);
        if chunk.start + chunk.size > bytes.len() {
            Seq::empty()
        } else {
            seq![chunk] + riff_chunks(bytes, behind(chunk))
        }
    }
}

/// How the chunks from `offset` on end.
pub open spec fn riff_end(bytes: Seq<u8>, offset: int) -> RiffEnd
    decreases bytes.len() + 1 - offset,
{
    if offset < 0 || offset + 8 > bytes.len() {
        RiffEnd::Complete
    } else {
        let chunk = chunk_at(bytes, offset);
        if chunk.start + chunk.size > usize::MAX {
            RiffEnd::Overflow
        } else if chunk.start + chunk.size > bytes.len() {
            RiffEnd::Truncated
        } else {
            riff_end(bytes, behind(chunk))
        }
    }
}

/// Whether the chunk describes the encoding of the samples.
pub open spec fn is_format(chunk: RiffChunk) -> bool {
    chunk.tag == format_tag() && chunk.size >= 16
}

/// Whether the chunk holds samples.
pub open spec fn is_data(chunk: RiffChunk) -> bool {
    chunk.tag == data_tag()
}

/// Whether the chunk describes an encoding other than PCM, or one without a
/// channel or a sample rate.
pub open spec fn is_unsupported(bytes: Seq<u8>, chunk: RiffChunk) -> bool {
    &&& is_format(chunk)
    &&& {
        ||| le_u16(bytes, chunk.start) != 1
        ||| le_u16(bytes, chunk.start + 2) == 0
        ||| le_u32(bytes, chunk.start + 4) == 0
    }
}

/// The last chunk that is as `kind` says.
pub open spec fn last_chunk(chunks: Seq<RiffChunk>, kind: spec_fn(RiffChunk) -> bool) -> Option<
    RiffChunk,
>
    decreases chunks.len(),
{
    if chunks.len() == 0 {
        None
    } else if kind(chunks.last()) {
        Some(chunks.last())
    } else {
        last_chunk(chunks.drop_last(), kind)
    }
}

/// The first chunk that is as `kind` says.
pub open spec fn first_chunk(chunks: Seq<RiffChunk>, kind: spec_fn(RiffChunk) -> bool) -> Option<
    RiffChunk,
>
    decreases chunks.len(),
{
    if chunks.len() == 0 {
        None
    } else if kind(chunks[0]) {
        Some(chunks[0])
    } else {
        first_chunk(chunks.skip(1), kind)
    }
}

/// The content of a chunk.
pub open spec fn chunk_content(bytes: Seq<u8>, chunk: RiffChunk) -> Seq<u8> {
    bytes.subrange(chunk.start, chunk.start + chunk.size)
}

/// What a WAVE file holds: the last description of the encoding and the last
/// samples count; an encoding that is not supported is an error wherever it
/// stands.
pub open spec fn wav_content(bytes: Seq<u8>) -> Result<WavContent, WavError> {
    let chunks = riff_chunks(bytes, 12);
    if !is_wave(bytes) {
        Err(WavError::NotRiff)
    } else if exists|i: int| 0 <= i < chunks.len() && is_unsupported(bytes, #[trigger] chunks[i]) {
        Err(WavError::UnsupportedEncoding)
    } else {
        match riff_end(bytes, 12) {
            RiffEnd::Overflow => Err(WavError::SizeOverflow),
            RiffEnd::Truncated => Err(WavError::Truncated),
            RiffEnd::Complete => match (
                last_chunk(chunks, |c: RiffChunk| is_format(c)),
                last_chunk(chunks, |c: RiffChunk| is_data(c)),
            ) {
                (None, _) => Err(WavError::NoFormat),
                (Some(_), None) => Err(WavError::NoData),
                (Some(format), Some(data)) => Ok(
                    WavContent {
                        sample_rate: le_u32(bytes, format.start + 4),
                        channels: le_u16(bytes, format.start + 2),
                        bits_per_sample: le_u16(bytes, format.start + 14),
                        data: chunk_content(bytes, data),
                    },
                ),
            },
        }
    }
}

/// Reads a WAVE file with PCM samples.
pub fn parse_pcm_wav(bytes: &[u8]) -> (r: Result<PcmWav<'_>, WavError>)
    ensures
        match r {
            Ok(wav) => wav_content(bytes@) == Ok::<WavContent, WavError>(wav@),
            Err(e) => wav_content(bytes@) == Err::<WavContent, WavError>(e),
        },
        r matches Ok(wav) ==> wav.sample_rate > 0 && wav.channels > 0,
{
    if bytes.len() < 12 || !has_tag(bytes, 0, 82, 73, 70, 70) || !has_tag(bytes, 8, 87, 65, 86, 69) {
        return Err(WavError::NotRiff);
    }
    let ghost all = riff_chunks(bytes@, 12);
    let ghost formats = |c: RiffChunk| is_format(c);
    let ghost datas = |c: RiffChunk| is_data(c);
    let ghost mut seen: Seq<RiffChunk> = Seq::empty();
    let mut offset: usize = 12;
    let mut format: Option<(u32, u16, u16)> = None;
    let mut data: Option<(usize, usize)> = None;
    proof {
        assert(seen + all == all);
    }
    while bytes.len() - offset >= 8
        invariant
            is_wave(bytes@),
            all == riff_chunks(bytes@, 12),
            formats == (|c: RiffChunk| is_format(c)),
            datas == (|c: RiffChunk| is_data(c)),
            12 <= offset <= bytes.len(),
            seen + riff_chunks(bytes@, offset as int) == all,
            riff_end(bytes@, offset as int) == riff_end(bytes@, 12),
            forall|i: int| 0 <= i < seen.len() ==> !is_unsupported(bytes@, #[trigger] seen[i]),
            match format {
                None => last_chunk(seen, formats) is None,
                Some((sample_rate, channels, bits)) => {
                    &&& last_chunk(seen, formats) matches Some(c)
                    &&& sample_rate == le_u32(bytes@, c.start + 4)
                    &&& channels == le_u16(bytes@, c.start + 2)
                    &&& bits == le_u16(bytes@, c.start + 14)
                    &&& sample_rate > 0
                    &&& channels > 0
                },
            },
            match data {
                None => last_chunk(seen, datas) is None,
                Some((start, end)) => {
                    &&& last_chunk(seen, datas) matches Some(c)
                    &&& start == c.start
                    &&& end == c.start + c.size
                    &&& start <= end <= bytes.len()
                },
            },
        decreases bytes.len() - offset,
    {
        let ghost chunk = chunk_at(bytes@, offset as int);
        let size = read_u32(bytes, offset + 4) as usize;
        let start = offset + 8;
        let end = match start.checked_add(size) {
            Some(end) => end,
            None => {
                proof {
                    assert(seen == all);
                }
                return Err(WavError::SizeOverflow);
            },
        };
        if end > bytes.len() {
            proof {
                assert(seen == all);
            }
            return Err(WavError::Truncated);
        }
        let ghost later = riff_chunks(bytes@, behind(chunk));
        let ghost next = seen.push(chunk);
        proof {
            assert(seen + (seq![chunk] + later) == next + later);
            assert(next.drop_last() == seen);
            assert(all[seen.len() as int] == chunk);
        }
        if size >= 16 && has_tag(bytes, offset, 102, 109, 116, 32) {
            let codec = read_u16(bytes, start);
            let channels = read_u16(bytes, start + 2);
            let sample_rate = read_u32(bytes, start + 4);
            let bits = read_u16(bytes, start + 14);
            if codec != 1 || channels == 0 || sample_rate == 0 {
                return Err(WavError::UnsupportedEncoding);
            }
            format = Some((sample_rate, channels, bits));
            proof {
                assert(format_tag()[0] != data_tag()[0]);
            }
        } else if has_tag(bytes, offset, 100, 97, 116, 97) {
            data = Some((start, end));
            proof {
                assert(format_tag()[0] != data_tag()[0]);
            }
        }
        proof {
            seen = next;
            assert(riff_end(bytes@, behind(chunk)) == riff_end(bytes@, 12));
        }
        offset = if size % 2 == 1 && end < bytes.len() {
            end + 1
        } else {
            end
        };
    }
    proof {
        assert(seen == all);
    }
    let (sample_rate, channels, bits_per_sample) = match format {
        Some(format) => format,
        None => return Err(WavError::NoFormat),
    };
    let (start, end) = match data {
        Some(data) => data,
        None => return Err(WavError::NoData),
    };
    Ok(PcmWav { sample_rate, channels, bits_per_sample, data: slice_subrange(bytes, start, end) })
}

/// The samples of the first chunk that holds any.
pub open spec fn recorded_samples(wav: Seq<u8>) -> Result<Seq<u8>, RecordingError> {
    if !is_wave(wav) {
        Err(RecordingError::InvalidFile)
    } else {
        match first_chunk(riff_chunks(wav, 12), |c: RiffChunk| is_data(c)) {
            Some(chunk) => Ok(chunk_content(wav, chunk)),
            None => Err(RecordingError::NoAudioData),
        }
    }
}

/// Reads the samples out of a recorded segment.
pub fn wav_pcm_data(wav: &[u8]) -> (r: Result<&[u8], RecordingError>)
    ensures
        match r {
            Ok(data) => recorded_samples(wav@) == Ok::<Seq<u8>, RecordingError>(data@),
            Err(e) => recorded_samples(wav@) == Err::<Seq<u8>, RecordingError>(e),
        },
{
    if wav.len() < 12 || !has_tag(wav, 0, 82, 73, 70, 70) || !has_tag(wav, 8, 87, 65, 86, 69) {
        return Err(RecordingError::InvalidFile);
    }
    let ghost datas = |c: RiffChunk| is_data(c);
    let mut offset: usize = 12;
    while wav.len() - offset >= 8
        invariant
            is_wave(wav@),
            datas == (|c: RiffChunk| is_data(c)),
            12 <= offset <= wav.len(),
            first_chunk(riff_chunks(wav@, offset as int), datas) == first_chunk(
                riff_chunks(wav@, 12),
                datas,
            ),
        decreases wav.len() - offset,
    {
        let ghost chunk = chunk_at(wav@, offset as int);
        let size = read_u32(wav, offset + 4) as usize;
        let start = offset + 8;
        if wav.len() - start < size {
            return Err(RecordingError::NoAudioData);
        }
        let end = start + size;
        let ghost later = riff_chunks(wav@, behind(chunk));
        proof {
            assert((seq![chunk] + later).skip(1) == later);
        }
        if has_tag(wav, offset, 100, 97, 116, 97) {
            return Ok(slice_subrange(wav, start, end));
        }
        offset = if size % 2 == 1 && end < wav.len() {
            end + 1
        } else {
            end
        };
    }
    Err(RecordingError::NoAudioData)
}

// ---------------------------------------------------------------------------
// Writing WAVE files
// ---------------------------------------------------------------------------

/// A WAVE file with 16-bit PCM samples: the RIFF header, a description of the
/// encoding in 16 bytes, and the samples.
pub open spec fn wav_file(pcm: Seq<u8>, sample_rate: int, channels: int) -> Seq<u8> {
    wav_header(pcm.len() as int, sample_rate, channels) + pcm
}

/// The 44 bytes before the samples.
pub open spec fn wav_header(data_len: int, sample_rate: int, channels: int) -> Seq<u8> {
    riff_tag() + le4(36 + data_len) + wave_tag() + format_tag() + le4(16) + le2(1) + le2(channels)
        + le4(sample_rate) + le4(sample_rate * channels * 2) + le2(channels * 2) + le2(16)
        + data_tag() + le4(data_len)
}

/// Whether the numbers in the header have room in their fields.
pub open spec fn header_fits(data_len: int, sample_rate: int, channels: int) -> bool {
    &&& 36 + data_len <= u32::MAX
    &&& sample_rate * channels * 2 <= u32::MAX
    &&& channels * 2 <= u16::MAX
}

fn build_wav(pcm: &[u8], sample_rate: u32, channels: u16) -> (wav: Vec<u8>)
    requires
        header_fits(pcm@.len() as int, sample_rate as int, channels as int),
    ensures
        wav@ == wav_file(pcm@, sample_rate as int, channels as int),
{
    let data_len = pcm.len() as u32;
    proof {
        assert(sample_rate * channels <= sample_rate * channels * 2) by (nonlinear_arith);
    }
    let byte_rate = sample_rate * (channels as u32) * 2;
    let block_align = channels * 2;
    let mut wav: Vec<u8> = Vec::new();
    push_tag(&mut wav, 82, 73, 70, 70);
    push_u32(&mut wav, 36 + data_len);
    push_tag(&mut wav, 87, 65, 86, 69);
    push_tag(&mut wav, 102, 109, 116, 32);
    push_u32(&mut wav, 16);
    push_u16(&mut wav, 1);
    push_u16(&mut wav, channels);
    push_u32(&mut wav, sample_rate);
    push_u32(&mut wav, byte_rate);
    push_u16(&mut wav, block_align);
    push_u16(&mut wav, 16);
    push_tag(&mut wav, 100, 97, 116, 97);
    push_u32(&mut wav, data_len);
    proof {
        assert(wav@ =~= wav_header(pcm@.len() as int, sample_rate as int, channels as int));
    }
    push_bytes(&mut wav, pcm);
    wav
}

/// Wraps samples into a WAVE file of 16-bit PCM.
pub fn pcm_to_wav(pcm: &[u8], sample_rate: u32, channels: u16) -> (r: Result<Vec<u8>, WavError>)
    requires
        pcm@.len() <= u32::MAX ==> header_fits(
            pcm@.len() as int,
            sample_rate as int,
            channels as int,
        ),
    ensures
        match r {
            Ok(wav) => {
                &&& pcm@.len() <= u32::MAX
                &&& wav@ == wav_file(pcm@, sample_rate as int, channels as int)
            },
            Err(e) => pcm@.len() > u32::MAX && e == WavError::TooLarge,
        },
{
    if pcm.len() as u64 > u32::MAX as u64 {
        return Err(WavError::TooLarge);
    }
    Ok(build_wav(pcm, sample_rate, channels))
}

/// Wraps recorded samples into a WAVE file of 16 kHz mono 16-bit PCM.
pub fn wav_with_pcm(pcm: &[u8]) -> (wav: Vec<u8>)
    requires
        36 + pcm@.len() <= u32::MAX,
    ensures
        wav@ == wav_file(pcm@, 16000, 1),
{
    build_wav(pcm, 16000, 1)
}

/// The samples of all segments one after the other, or the error of the first
/// segment that has one.
pub open spec fn segment_samples(segments: Seq<Seq<u8>>) -> Result<Seq<u8>, RecordingError>
    decreases segments.len(),
{
    if segments.len() == 0 {
        Ok(Seq::empty())
    } else {
        match segment_samples(segments.drop_last()) {
            Err(e) => Err(e),
            Ok(pcm) => match recorded_samples(segments.last()) {
                Err(e) => Err(e),
                Ok(data) => Ok(pcm + data),
            },
        }
    }
}

/// Appends the samples of a recorded segment.
pub fn append_segment(pcm: &mut Vec<u8>, wav: &[u8]) -> (r: Result<(), RecordingError>)
    ensures
        match r {
            Ok(()) => {
                &&& recorded_samples(wav@) matches Ok(data)
                &&& final(pcm)@ == old(pcm)@ + data
            },
            Err(e) => {
                &&& recorded_samples(wav@) == Err::<Seq<u8>, RecordingError>(e)
                &&& final(pcm)@ == old(pcm)@
            },
        },
{
    match wav_pcm_data(wav) {
        Ok(data) => {
            push_bytes(pcm, data);
            Ok(())
        },
        Err(e) => Err(e),
    }
}

/// Makes one recording of the samples of all segments.
pub fn finish_recording(pcm: &[u8]) -> (r: Result<Vec<u8>, RecordingError>)
    requires
        36 + pcm@.len() <= u32::MAX,
    ensures
        match r {
            Ok(wav) => pcm@.len() > 0 && wav@ == wav_file(pcm@, 16000, 1),
            Err(e) => pcm@.len() == 0 && e == RecordingError::Empty,
        },
{
    if pcm.len() == 0 {
        return Err(RecordingError::Empty);
    }
    Ok(wav_with_pcm(pcm))
}

/// The views of a list of files.
pub open spec fn byte_views(files: Seq<Vec<u8>>) -> Seq<Seq<u8>> {
    files.map_values(|f: Vec<u8>| f@)
}

/// Makes one recording of recorded segments.
pub fn merge_wav_segments(segments: &Vec<Vec<u8>>) -> (r: Result<Vec<u8>, RecordingError>)
    requires
        segment_samples(byte_views(segments@)) matches Ok(pcm) ==> 36 + pcm.len() <= u32::MAX,
    ensures
        match segment_samples(byte_views(segments@)) {
            Err(e) => r == Err::<Vec<u8>, RecordingError>(e),
            Ok(pcm) => if pcm.len() == 0 {
                r == Err::<Vec<u8>, RecordingError>(RecordingError::Empty)
            } else {
                r matches Ok(wav) && wav@ == wav_file(pcm, 16000, 1)
            },
        },
{
    let ghost files = byte_views(segments@);
    let mut pcm: Vec<u8> = Vec::new();
    for i in 0..segments.len()
        invariant
            files == byte_views(segments@),
            segment_samples(files.take(i as int)) == Ok::<Seq<u8>, RecordingError>(pcm@),
    {
        proof {
            assert(files.take(i + 1).drop_last() == files.take(i as int));
            assert(files.take(i + 1).last() == segments@[i as int]@);
        }
        match append_segment(&mut pcm, &segments[i]) {
            Ok(()) => {},
            Err(e) => {
                proof {
                    lemma_segment_error(files, i + 1);
                }
                return Err(e);
            },
        }
    }
    proof {
        assert(files.take(files.len() as int) == files);
    }
    finish_recording(&pcm)
}

/// An error in the first segments is the error of them all.
proof fn lemma_segment_error(files: Seq<Seq<u8>>, count: int)
    requires
        0 <= count <= files.len(),
        segment_samples(files.take(count)) is Err,
    ensures
        segment_samples(files) == segment_samples(files.take(count)),
    decreases files.len() - count,
{
    if count < files.len() {
        assert(files.take(count + 1).drop_last() == files.take(count));
        lemma_segment_error(files, count + 1);
    } else {
        assert(files.take(count) == files);
    }
}

// ---------------------------------------------------------------------------
// Laws
// ---------------------------------------------------------------------------

proof fn lemma_le4(bytes: Seq<u8>, at: int, n: int)
    requires
        0 <= at,
        at + 4 <= bytes.len(),
        bytes.subrange(at, at + 4) == le4(n),
        0 <= n <= u32::MAX,
    ensures
        le_u32(bytes, at) == n,
{
    let part = bytes.subrange(at, at + 4);
    assert(part[0] == bytes[at] && part[1] == bytes[at + 1] && part[2] == bytes[at + 2] && part[3]
        == bytes[at + 3]);
}

proof fn lemma_le2(bytes: Seq<u8>, at: int, n: int)
    requires
        0 <= at,
        at + 2 <= bytes.len(),
        bytes.subrange(at, at + 2) == le2(n),
        0 <= n <= u16::MAX,
    ensures
        le_u16(bytes, at) == n,
{
    let part = bytes.subrange(at, at + 2);
    assert(part[0] == bytes[at] && part[1] == bytes[at + 1]);
}

/// The chunks of a written file: the description of the encoding, then the
/// samples.
proof fn lemma_written_chunks(pcm: Seq<u8>, sample_rate: int, channels: int)
    requires
        header_fits(pcm.len() as int, sample_rate, channels),
        0 <= sample_rate <= u32::MAX,
        0 <= channels <= u16::MAX,
        44 + pcm.len() <= usize::MAX,
    ensures
        ({
            let file = wav_file(pcm, sample_rate, channels);
            let format = RiffChunk { tag: format_tag(), start: 20, size: 16 };
            let data = RiffChunk { tag: data_tag(), start: 44, size: pcm.len() as int };
            &&& is_wave(file)
            &&& riff_chunks(file, 12) == seq![format, data]
            &&& riff_end(file, 12) == RiffEnd::Complete
            &&& le_u16(file, 20) == 1
            &&& le_u16(file, 22) == channels
            &&& le_u32(file, 24) == sample_rate
            &&& le_u16(file, 34) == 16
            &&& chunk_content(file, data) == pcm
        }),
{
    let file = wav_file(pcm, sample_rate, channels);
    let len = pcm.len() as int;
    assert(0 <= sample_rate * channels * 2) by (nonlinear_arith)
        requires
            0 <= sample_rate,
            0 <= channels,
    ;
    assert(file.len() == 44 + len);
    assert(file.subrange(0, 4) =~= riff_tag());
    assert(file.subrange(8, 12) =~= wave_tag());
    assert(file.subrange(12, 16) =~= format_tag());
    assert(file.subrange(16, 20) =~= le4(16));
    assert(file.subrange(20, 22) =~= le2(1));
    assert(file.subrange(22, 24) =~= le2(channels));
    assert(file.subrange(24, 28) =~= le4(sample_rate));
    assert(file.subrange(34, 36) =~= le2(16));
    assert(file.subrange(36, 40) =~= data_tag());
    assert(file.subrange(40, 44) =~= le4(len));
    assert(file.subrange(44, 44 + len) =~= pcm);
    lemma_le4(file, 16, 16);
    lemma_le2(file, 20, 1);
    lemma_le2(file, 22, channels);
    lemma_le4(file, 24, sample_rate);
    lemma_le2(file, 34, 16);
    lemma_le4(file, 40, len);
    let format = chunk_at(file, 12);
    let data = chunk_at(file, 36);
    assert(behind(format) == 36);
    let rest = behind(data);
    assert(riff_chunks(file, rest) == Seq::<RiffChunk>::empty());
    assert(riff_end(file, rest) == RiffEnd::Complete);
    assert(riff_chunks(file, 36) == seq![data] + Seq::<RiffChunk>::empty());
    assert(riff_end(file, 36) == RiffEnd::Complete);
    assert(riff_chunks(file, 12) == seq![format] + riff_chunks(file, 36));
    assert(riff_chunks(file, 12) =~= seq![format, data]);
}

proof fn lemma_two_chunks(file: Seq<u8>, format: RiffChunk, data: RiffChunk)
    requires
        is_wave(file),
        riff_chunks(file, 12) == seq![format, data],
        riff_end(file, 12) == RiffEnd::Complete,
        is_format(format),
        data.tag == data_tag(),
        !is_unsupported(file, format),
    ensures
        wav_content(file) == Ok::<WavContent, WavError>(
            WavContent {
                sample_rate: le_u32(file, format.start + 4),
                channels: le_u16(file, format.start + 2),
                bits_per_sample: le_u16(file, format.start + 14),
                data: chunk_content(file, data),
            },
        ),
{
    let chunks = riff_chunks(file, 12);
    let formats = |c: RiffChunk| is_format(c);
    let datas = |c: RiffChunk| is_data(c);
    assert(format_tag()[0] != data_tag()[0]);
    assert(chunks.drop_last() =~= seq![format]);
    assert(last_chunk(chunks.drop_last(), formats) == Some(format));
    assert(last_chunk(chunks, formats) == Some(format));
    assert(last_chunk(chunks, datas) == Some(data));
    assert(!is_unsupported(file, data));
}

/// Reading a written file gives back the encoding and the samples.
pub proof fn law_read_of_written(pcm: Seq<u8>, sample_rate: int, channels: int)
    requires
        header_fits(pcm.len() as int, sample_rate, channels),
        0 < sample_rate <= u32::MAX,
        0 < channels <= u16::MAX,
        44 + pcm.len() <= usize::MAX,
    ensures
        wav_content(wav_file(pcm, sample_rate, channels)) == Ok::<WavContent, WavError>(
            WavContent { sample_rate, channels, bits_per_sample: 16, data: pcm },
        ),
{
    lemma_written_chunks(pcm, sample_rate, channels);
    let file = wav_file(pcm, sample_rate, channels);
    let format = RiffChunk { tag: format_tag(), start: 20, size: 16 };
    let data = RiffChunk { tag: data_tag(), start: 44, size: pcm.len() as int };
    lemma_two_chunks(file, format, data);
}

proof fn lemma_last_chunk(chunks: Seq<RiffChunk>, kind: spec_fn(RiffChunk) -> bool)
    ensures
        last_chunk(chunks, kind) matches Some(chunk) ==> kind(chunk) && chunks.contains(chunk),
    decreases chunks.len(),
{
    if chunks.len() > 0 {
        if kind(chunks.last()) {
            assert(chunks[chunks.len() - 1] == chunks.last());
        } else {
            lemma_last_chunk(chunks.drop_last(), kind);
            if let Some(chunk) = last_chunk(chunks.drop_last(), kind) {
                let i = choose|i: int|
                    0 <= i < chunks.drop_last().len() && chunks.drop_last()[i] == chunk;
                assert(chunks[i] == chunk);
            }
        }
    }
}

/// A file that is taken as PCM audio has a rate and a channel.
pub proof fn lemma_content_is_playable(bytes: Seq<u8>)
    ensures
        wav_content(bytes) matches Ok(content) ==> 0 < content.sample_rate <= u32::MAX && 0
            < content.channels <= u16::MAX,
{
    let chunks = riff_chunks(bytes, 12);
    lemma_last_chunk(chunks, |c: RiffChunk| is_format(c));
    if let Ok(content) = wav_content(bytes) {
        let format = last_chunk(chunks, |c: RiffChunk| is_format(c))->0;
        let i = choose|i: int| 0 <= i < chunks.len() && chunks[i] == format;
        assert(!is_unsupported(bytes, chunks[i]));
    }
}

/// The samples of a written recording are those that went into it.
pub proof fn law_samples_of_recording(pcm: Seq<u8>, sample_rate: int, channels: int)
    requires
        header_fits(pcm.len() as int, sample_rate, channels),
        0 <= sample_rate <= u32::MAX,
        0 <= channels <= u16::MAX,
        44 + pcm.len() <= usize::MAX,
    ensures
        recorded_samples(wav_file(pcm, sample_rate, channels)) == Ok::<Seq<u8>, RecordingError>(
            pcm,
        ),
{
    lemma_written_chunks(pcm, sample_rate, channels);
    let chunks = riff_chunks(wav_file(pcm, sample_rate, channels), 12);
    let datas = |c: RiffChunk| is_data(c);
    assert(format_tag()[0] != data_tag()[0]);
    assert(chunks.skip(1) =~= seq![chunks[1]]);
    assert(first_chunk(chunks.skip(1), datas) == Some(chunks[1]));
    assert(first_chunk(chunks, datas) == Some(chunks[1]));
}

/// The sequences one after the other.
pub open spec fn concatenation(parts: Seq<Seq<u8>>) -> Seq<u8>
    decreases parts.len(),
{
    if parts.len() == 0 {
        Seq::empty()
    } else {
        concatenation(parts.drop_last()) + parts.last()
    }
}

/// The sequences one after the other are the first and then the others.
pub proof fn lemma_concatenation(parts: Seq<Seq<u8>>)
    requires
        parts.len() > 0,
    ensures
        concatenation(parts) == parts[0] + concatenation(parts.skip(1)),
    decreases parts.len(),
{
    let rest = parts.skip(1);
    if parts.len() == 1 {
        assert(concatenation(parts.drop_last()) =~= Seq::<u8>::empty());
        assert(concatenation(rest) =~= Seq::<u8>::empty());
        assert(concatenation(parts) =~= parts[0] + concatenation(rest));
    } else {
        lemma_concatenation(parts.drop_last());
        assert(parts.drop_last().skip(1) =~= rest.drop_last());
        assert(concatenation(parts) =~= parts[0] + concatenation(rest));
    }
}

/// Merging segments keeps every sample of every segment, in order: the merged
/// recording of files that were written from `parts` holds their concatenation.
pub proof fn law_merge_keeps_samples(parts: Seq<Seq<u8>>)
    requires
        forall|i: int| 0 <= i < parts.len() ==> 36 + (#[trigger] parts[i]).len() <= u32::MAX,
        forall|i: int| 0 <= i < parts.len() ==> 44 + (#[trigger] parts[i]).len() <= usize::MAX,
        36 + concatenation(parts).len() <= u32::MAX,
        44 + concatenation(parts).len() <= usize::MAX,
    ensures
        segment_samples(parts.map_values(|p: Seq<u8>| wav_file(p, 16000, 1))) == Ok::<
            Seq<u8>,
            RecordingError,
        >(concatenation(parts)),
        recorded_samples(wav_file(concatenation(parts), 16000, 1)) == Ok::<Seq<u8>, RecordingError>(
            concatenation(parts),
        ),
    decreases parts.len(),
{
    law_samples_of_recording(concatenation(parts), 16000, 1);
    let file = |p: Seq<u8>| wav_file(p, 16000, 1);
    if parts.len() > 0 {
        let first = parts.drop_last();
        assert forall|i: int| 0 <= i < first.len() implies 36 + (#[trigger] first[i]).len()
            <= u32::MAX && 44 + first[i].len() <= usize::MAX by {
            assert(first[i] == parts[i]);
        }
        law_merge_keeps_samples(first);
        law_samples_of_recording(parts.last(), 16000, 1);
        assert(parts.map_values(file).drop_last() =~= first.map_values(file));
        assert(parts.map_values(file).last() == file(parts.last()));
    }
}

// ---------------------------------------------------------------------------
// Laws of the file format
// ---------------------------------------------------------------------------

/// The number that four bytes from `at` on stand for, the lowest first.
pub open spec fn number_at(file: Seq<u8>, at: int) -> int {
    file[at] + 0x100 * file[at + 1] + 0x1_0000 * file[at + 2] + 0x100_0000 * file[at + 3]
}

/// The number that two bytes from `at` on stand for, the lower first.
pub open spec fn short_at(file: Seq<u8>, at: int) -> int {
    file[at] + 0x100 * file[at + 1]
}

/// Whether these four characters stand in a file at `at`.
pub open spec fn named(file: Seq<u8>, at: int, a: char, b: char, c: char, d: char) -> bool {
    &&& 0 <= at && at + 4 <= file.len()
    &&& file[at] == a as int
    &&& file[at + 1] == b as int
    &&& file[at + 2] == c as int
    &&& file[at + 3] == d as int
}

/// A written file is laid out as every reader of WAVE files expects it: 44 bytes
/// that say how long it is, that it is PCM with samples of 16 bits, how many
/// channels there are and how many samples of each in a second, and how many bytes
/// follow; then the samples.
pub proof fn law_layout_of_written(pcm: Seq<u8>, sample_rate: int, channels: int)
    requires
        header_fits(pcm.len() as int, sample_rate, channels),
        0 <= sample_rate <= u32::MAX,
        0 <= channels <= u16::MAX,
    ensures
        ({
            let file = wav_file(pcm, sample_rate, channels);
            &&& file.len() == 44 + pcm.len()
            &&& named(file, 0, 'R', 'I', 'F', 'F')
            &&& number_at(file, 4) == file.len() - 8
            &&& named(file, 8, 'W', 'A', 'V', 'E')
            &&& named(file, 12, 'f', 'm', 't', ' ')
            &&& number_at(file, 16) == 16
            &&& short_at(file, 20) == 1
            &&& short_at(file, 22) == channels
            &&& number_at(file, 24) == sample_rate
            &&& number_at(file, 28) == sample_rate * channels * 2
            &&& short_at(file, 32) == channels * 2
            &&& short_at(file, 34) == 16
            &&& named(file, 36, 'd', 'a', 't', 'a')
            &&& number_at(file, 40) == pcm.len()
            &&& file.skip(44) == pcm
        }),
{
    let file = wav_file(pcm, sample_rate, channels);
    let len = pcm.len() as int;
    let speed = sample_rate * channels * 2;
    assert(0 <= speed) by (nonlinear_arith)
        requires
            0 <= sample_rate,
            0 <= channels,
            speed == sample_rate * channels * 2,
    ;
    assert(file.subrange(4, 8) =~= le4(36 + len));
    assert(file.subrange(16, 20) =~= le4(16));
    assert(file.subrange(20, 22) =~= le2(1));
    assert(file.subrange(22, 24) =~= le2(channels));
    assert(file.subrange(24, 28) =~= le4(sample_rate));
    assert(file.subrange(28, 32) =~= le4(speed));
    assert(file.subrange(32, 34) =~= le2(channels * 2));
    assert(file.subrange(34, 36) =~= le2(16));
    assert(file.subrange(40, 44) =~= le4(len));
    lemma_le4(file, 4, 36 + len);
    lemma_le4(file, 16, 16);
    lemma_le2(file, 20, 1);
    lemma_le2(file, 22, channels);
    lemma_le4(file, 24, sample_rate);
    lemma_le4(file, 28, speed);
    lemma_le2(file, 32, channels * 2);
    lemma_le2(file, 34, 16);
    lemma_le4(file, 40, len);
    assert(file.skip(44) =~= pcm);
}

/// A chunk as it stands in a file: a name of four bytes, the length of the content
/// in four bytes, the content, and one more byte where the length is odd.
pub open spec fn in_file(part: (Seq<u8>, Seq<u8>)) -> Seq<u8> {
    let n = part.1.len() as int;
    part.0 + seq![
        (n % 0x100) as u8,
        (n / 0x100 % 0x100) as u8,
        (n / 0x1_0000 % 0x100) as u8,
        (n / 0x100_0000 % 0x100) as u8,
    ] + part.1 + (if n % 2 == 1 {
        seq![0u8]
    } else {
        Seq::empty()
    })
}

/// Chunks as they stand in a file one after the other.
pub open spec fn all_in_file(parts: Seq<(Seq<u8>, Seq<u8>)>) -> Seq<u8>
    decreases parts.len(),
{
    if parts.len() == 0 {
        Seq::empty()
    } else {
        in_file(parts[0]) + all_in_file(parts.skip(1))
    }
}

/// Whether the chunks have names of four bytes and lengths that fit in four.
pub open spec fn well_named(parts: Seq<(Seq<u8>, Seq<u8>)>) -> bool {
    forall|k: int|
        0 <= k < parts.len() ==> (#[trigger] parts[k]).0.len() == 4 && parts[k].1.len() <= u32::MAX
}

/// Whether the chunks of a file from `at` on are `parts`, and then those from
/// `end` on.
spec fn reads_as(
    file: Seq<u8>,
    at: int,
    end: int,
    parts: Seq<(Seq<u8>, Seq<u8>)>,
) -> bool {
    let chunks = riff_chunks(file, at);
    &&& chunks.len() == parts.len() + riff_chunks(file, end).len()
    &&& forall|k: int|
        0 <= k < parts.len() ==> {
            let chunk = #[trigger] chunks[k];
            &&& chunk.tag == parts[k].0
            &&& chunk.size == parts[k].1.len()
            &&& 0 <= chunk.start && chunk.start + chunk.size <= file.len()
            &&& chunk_content(file, chunk) == parts[k].1
        }
    &&& forall|k: int|
        parts.len() <= k < chunks.len() ==> #[trigger] chunks[k] == riff_chunks(file, end)[k
            - parts.len()]
    &&& riff_end(file, at) == riff_end(file, end)
}

#[verifier::spinoff_prover]
proof fn lemma_one_chunk(pre: Seq<u8>, part: (Seq<u8>, Seq<u8>), rest: Seq<u8>)
    requires
        part.0.len() == 4,
        part.1.len() <= u32::MAX,
    ensures
        ({
            let file = pre + in_file(part) + rest;
            let chunk = chunk_at(file, pre.len() as int);
            &&& chunk.tag == part.0
            &&& chunk.size == part.1.len()
            &&& chunk.start == pre.len() + 8
            &&& chunk_content(file, chunk) == part.1
            &&& behind(chunk) == pre.len() + in_file(part).len()
            &&& chunk.start + chunk.size <= file.len()
        }),
{
    let n = part.1.len() as int;
    let size = seq![
        (n % 0x100) as u8,
        (n / 0x100 % 0x100) as u8,
        (n / 0x1_0000 % 0x100) as u8,
        (n / 0x100_0000 % 0x100) as u8,
    ];
    let pad = if n % 2 == 1 {
        seq![0u8]
    } else {
        Seq::<u8>::empty()
    };
    let piece = in_file(part);
    let file = pre + piece + rest;
    let at = pre.len() as int;
    assert(piece == part.0 + size + part.1 + pad);
    assert(size.len() == 4);
    assert(piece.len() == 8 + n + pad.len());
    assert(file.subrange(at, at + 4) =~= part.0);
    assert(file.subrange(at + 4, at + 8) =~= size);
    assert(file.subrange(at + 8, at + 8 + n) =~= part.1);
    lemma_size(file, at + 4, size, n);
}

proof fn lemma_size(file: Seq<u8>, at: int, size: Seq<u8>, n: int)
    requires
        0 <= at,
        at + 4 <= file.len(),
        0 <= n <= u32::MAX,
        size == seq![
            (n % 0x100) as u8,
            (n / 0x100 % 0x100) as u8,
            (n / 0x1_0000 % 0x100) as u8,
            (n / 0x100_0000 % 0x100) as u8,
        ],
        file.subrange(at, at + 4) == size,
    ensures
        le_u32(file, at) == n,
{
    let part = file.subrange(at, at + 4);
    assert(part[0] == file[at] && part[1] == file[at + 1] && part[2] == file[at + 2] && part[3]
        == file[at + 3]);
}

proof fn lemma_reads_as(pre: Seq<u8>, parts: Seq<(Seq<u8>, Seq<u8>)>, tail: Seq<u8>)
    requires
        well_named(parts),
        (pre + all_in_file(parts) + tail).len() <= usize::MAX,
    ensures
        reads_as(
            pre + all_in_file(parts) + tail,
            pre.len() as int,
            (pre + all_in_file(parts)).len() as int,
            parts,
        ),
    decreases parts.len(),
{
    let file = pre + all_in_file(parts) + tail;
    let at = pre.len() as int;
    let end = (pre + all_in_file(parts)).len() as int;
    if parts.len() == 0 {
        assert(pre + all_in_file(parts) =~= pre);
    } else {
        let part = parts[0];
        let rest = parts.skip(1);
        let next = pre + in_file(part);
        assert(part.0.len() == 4);
        assert(forall|k: int| 0 <= k < rest.len() ==> rest[k] == parts[k + 1]);
        assert(next + all_in_file(rest) =~= pre + all_in_file(parts));
        assert(next + all_in_file(rest) + tail =~= file);
        assert(next + (all_in_file(rest) + tail) =~= file);
        lemma_reads_as(next, rest, tail);
        lemma_one_chunk(pre, part, all_in_file(rest) + tail);
        lemma_one_more(file, at, next.len() as int, end, parts);
    }
}

proof fn lemma_one_more(
    file: Seq<u8>,
    at: int,
    next: int,
    end: int,
    parts: Seq<(Seq<u8>, Seq<u8>)>,
)
    requires
        0 <= at,
        at + 8 <= file.len() <= usize::MAX,
        parts.len() > 0,
        reads_as(file, next, end, parts.skip(1)),
        ({
            let chunk = chunk_at(file, at);
            &&& chunk.tag == parts[0].0
            &&& chunk.size == parts[0].1.len()
            &&& chunk.start + chunk.size <= file.len()
            &&& chunk_content(file, chunk) == parts[0].1
            &&& behind(chunk) == next
        }),
    ensures
        reads_as(file, at, end, parts),
{
    let rest = parts.skip(1);
    let chunk = chunk_at(file, at);
    let later = riff_chunks(file, next);
    let chunks = riff_chunks(file, at);
    assert(chunks == seq![chunk] + later);
    assert forall|k: int| 0 <= k < parts.len() implies {
        let chunk = #[trigger] chunks[k];
        &&& chunk.tag == parts[k].0
        &&& chunk.size == parts[k].1.len()
        &&& 0 <= chunk.start && chunk.start + chunk.size <= file.len()
        &&& chunk_content(file, chunk) == parts[k].1
    } by {
        if k > 0 {
            assert(chunks[k] == later[k - 1]);
            assert(parts[k] == rest[k - 1]);
        }
    }
    assert forall|k: int| parts.len() <= k < chunks.len() implies #[trigger] chunks[k]
        == riff_chunks(file, end)[k - parts.len()] by {
        assert(chunks[k] == later[k - 1]);
    }
}

/// Whether a chunk describes the encoding.
pub open spec fn describes(part: (Seq<u8>, Seq<u8>)) -> bool {
    named(part.0, 0, 'f', 'm', 't', ' ') && part.1.len() >= 16
}

/// Whether a chunk holds samples.
pub open spec fn has_samples(part: (Seq<u8>, Seq<u8>)) -> bool {
    named(part.0, 0, 'd', 'a', 't', 'a')
}

/// Whether a description of the encoding can be used: PCM, with a rate and with
/// channels.
pub open spec fn is_usable(part: (Seq<u8>, Seq<u8>)) -> bool {
    short_at(part.1, 0) == 1 && short_at(part.1, 2) != 0 && number_at(part.1, 4) != 0
}

proof fn lemma_tags(part: (Seq<u8>, Seq<u8>))
    requires
        part.0.len() == 4,
    ensures
        part.0 == format_tag() <==> named(part.0, 0, 'f', 'm', 't', ' '),
        part.0 == data_tag() <==> named(part.0, 0, 'd', 'a', 't', 'a'),
{
    if named(part.0, 0, 'f', 'm', 't', ' ') {
        assert(part.0 =~= format_tag());
    }
    if named(part.0, 0, 'd', 'a', 't', 'a') {
        assert(part.0 =~= data_tag());
    }
}

proof fn lemma_head(head: Seq<u8>, rest: Seq<u8>)
    requires
        head.len() == 12,
        named(head, 0, 'R', 'I', 'F', 'F'),
        named(head, 8, 'W', 'A', 'V', 'E'),
    ensures
        is_wave(head + rest),
{
    let file = head + rest;
    assert(file.subrange(0, 4) =~= riff_tag());
    assert(file.subrange(8, 12) =~= wave_tag());
}

proof fn lemma_is_last(chunks: Seq<RiffChunk>, kind: spec_fn(RiffChunk) -> bool, at: int)
    requires
        0 <= at < chunks.len(),
        kind(chunks[at]),
        forall|k: int| at < k < chunks.len() ==> !kind(#[trigger] chunks[k]),
    ensures
        last_chunk(chunks, kind) == Some(chunks[at]),
    decreases chunks.len(),
{
    if at < chunks.len() - 1 {
        assert(!kind(chunks[chunks.len() - 1]));
        let first = chunks.drop_last();
        assert(forall|k: int| 0 <= k < first.len() ==> first[k] == chunks[k]);
        lemma_is_last(first, kind, at);
    }
}

proof fn lemma_is_first(chunks: Seq<RiffChunk>, kind: spec_fn(RiffChunk) -> bool, at: int)
    requires
        0 <= at < chunks.len(),
        kind(chunks[at]),
        forall|k: int| 0 <= k < at ==> !kind(#[trigger] chunks[k]),
    ensures
        first_chunk(chunks, kind) == Some(chunks[at]),
    decreases chunks.len(),
{
    if at > 0 {
        assert(!kind(chunks[0]));
        let rest = chunks.skip(1);
        assert(forall|k: int| 0 <= k < rest.len() ==> rest[k] == chunks[k + 1]);
        lemma_is_first(rest, kind, at - 1);
    }
}

proof fn lemma_none_is_last(chunks: Seq<RiffChunk>, kind: spec_fn(RiffChunk) -> bool)
    requires
        forall|k: int| 0 <= k < chunks.len() ==> !kind(#[trigger] chunks[k]),
    ensures
        last_chunk(chunks, kind) is None,
{
    lemma_last_chunk(chunks, kind);
    if let Some(chunk) = last_chunk(chunks, kind) {
        let k = chunks.index_of(chunk);
        assert(!kind(chunks[k]));
    }
}

/// Whether a chunk of a file is read as the one that was written.
spec fn is_read_as(file: Seq<u8>, chunk: RiffChunk, part: (Seq<u8>, Seq<u8>)) -> bool {
    &&& is_format(chunk) == describes(part)
    &&& is_data(chunk) == has_samples(part)
    &&& is_unsupported(file, chunk) == (describes(part) && !is_usable(part))
    &&& chunk_content(file, chunk) == part.1
    &&& describes(part) ==> {
        &&& le_u32(file, chunk.start + 4) == number_at(part.1, 4)
        &&& le_u16(file, chunk.start + 2) == short_at(part.1, 2)
        &&& le_u16(file, chunk.start + 14) == short_at(part.1, 14)
    }
}

proof fn lemma_is_read_as(file: Seq<u8>, chunk: RiffChunk, part: (Seq<u8>, Seq<u8>))
    requires
        part.0.len() == 4,
        chunk.tag == part.0,
        chunk.size == part.1.len(),
        0 <= chunk.start,
        chunk.start + chunk.size <= file.len(),
        chunk_content(file, chunk) == part.1,
    ensures
        is_read_as(file, chunk, part),
{
    let content = part.1;
    lemma_tags(part);
    assert(forall|j: int|
        0 <= j < content.len() ==> #[trigger] content[j] == file[chunk.start + j]);
    if content.len() >= 16 {
        assert(content[0] == file[chunk.start] && content[1] == file[chunk.start + 1]);
        assert(content[2] == file[chunk.start + 2] && content[3] == file[chunk.start + 3]);
        assert(content[4] == file[chunk.start + 4] && content[5] == file[chunk.start + 5]);
        assert(content[6] == file[chunk.start + 6] && content[7] == file[chunk.start + 7]);
        assert(content[14] == file[chunk.start + 14] && content[15] == file[chunk.start + 15]);
    }
}

proof fn lemma_parts(head: Seq<u8>, parts: Seq<(Seq<u8>, Seq<u8>)>, tail: Seq<u8>)
    requires
        well_named(parts),
        head.len() == 12,
        tail.len() < 8 || tail.len() - 8 < number_at(tail, 4) <= usize::MAX - (head + all_in_file(
            parts,
        ) + tail).len(),
        (head + all_in_file(parts) + tail).len() <= usize::MAX,
    ensures
        ({
            let file = head + all_in_file(parts) + tail;
            let chunks = riff_chunks(file, 12);
            &&& chunks.len() == parts.len()
            &&& riff_end(file, 12) == if tail.len() < 8 {
                RiffEnd::Complete
            } else {
                RiffEnd::Truncated
            }
            &&& forall|k: int|
                0 <= k < parts.len() ==> is_read_as(file, #[trigger] chunks[k], parts[k])
        }),
{
    let file = head + all_in_file(parts) + tail;
    let end = (head + all_in_file(parts)).len() as int;
    lemma_reads_as(head, parts, tail);
    let chunks = riff_chunks(file, 12);
    if tail.len() >= 8 {
        assert(file[end + 4] == tail[4] && file[end + 5] == tail[5] && file[end + 6] == tail[6]
            && file[end + 7] == tail[7]);
        assert(chunk_at(file, end).size == number_at(tail, 4));
    }
    assert(riff_chunks(file, end).len() == 0);
    assert forall|k: int| 0 <= k < parts.len() implies is_read_as(
        file,
        #[trigger] chunks[k],
        parts[k],
    ) by {
        assert(parts[k].0.len() == 4);
        lemma_is_read_as(file, chunks[k], parts[k]);
    }
}

proof fn lemma_content_of(
    file: Seq<u8>,
    parts: Seq<(Seq<u8>, Seq<u8>)>,
    format: int,
    data: int,
)
    requires
        is_wave(file),
        riff_end(file, 12) == RiffEnd::Complete,
        riff_chunks(file, 12).len() == parts.len(),
        forall|k: int|
            0 <= k < parts.len() ==> is_read_as(file, #[trigger] riff_chunks(file, 12)[k], parts[k]),
        forall|k: int|
            0 <= k < parts.len() && describes(#[trigger] parts[k]) ==> is_usable(parts[k]),
        0 <= format < parts.len(),
        describes(parts[format]),
        forall|k: int| format < k < parts.len() ==> !describes(#[trigger] parts[k]),
        0 <= data < parts.len(),
        has_samples(parts[data]),
        forall|k: int| data < k < parts.len() ==> !has_samples(#[trigger] parts[k]),
    ensures
        wav_content(file) == Ok::<WavContent, WavError>(
            WavContent {
                sample_rate: number_at(parts[format].1, 4),
                channels: short_at(parts[format].1, 2),
                bits_per_sample: short_at(parts[format].1, 14),
                data: parts[data].1,
            },
        ),
{
    let chunks = riff_chunks(file, 12);
    assert(is_read_as(file, chunks[format], parts[format]));
    assert(is_read_as(file, chunks[data], parts[data]));
    assert forall|k: int| 0 <= k < chunks.len() implies {
        &&& !is_unsupported(file, #[trigger] chunks[k])
        &&& is_format(chunks[k]) == describes(parts[k])
        &&& is_data(chunks[k]) == has_samples(parts[k])
    } by {
        assert(is_read_as(file, chunks[k], parts[k]));
        assert(describes(parts[k]) ==> is_usable(parts[k]));
    }
    lemma_is_last(chunks, |c: RiffChunk| is_format(c), format);
    lemma_is_last(chunks, |c: RiffChunk| is_data(c), data);
}

/// Reading a WAVE file: of its chunks the last that describes the encoding and the
/// last that holds samples count, and all others are passed over, each with its
/// padding; up to seven bytes may follow.
pub proof fn law_reading(
    head: Seq<u8>,
    parts: Seq<(Seq<u8>, Seq<u8>)>,
    tail: Seq<u8>,
    format: int,
    data: int,
)
    requires
        head.len() == 12,
        named(head, 0, 'R', 'I', 'F', 'F'),
        named(head, 8, 'W', 'A', 'V', 'E'),
        well_named(parts),
        tail.len() < 8,
        (head + all_in_file(parts) + tail).len() <= usize::MAX,
        forall|k: int|
            0 <= k < parts.len() && describes(#[trigger] parts[k]) ==> is_usable(parts[k]),
        0 <= format < parts.len(),
        describes(parts[format]),
        forall|k: int| format < k < parts.len() ==> !describes(#[trigger] parts[k]),
        0 <= data < parts.len(),
        has_samples(parts[data]),
        forall|k: int| data < k < parts.len() ==> !has_samples(#[trigger] parts[k]),
    ensures
        wav_content(head + all_in_file(parts) + tail) == Ok::<WavContent, WavError>(
            WavContent {
                sample_rate: number_at(parts[format].1, 4),
                channels: short_at(parts[format].1, 2),
                bits_per_sample: short_at(parts[format].1, 14),
                data: parts[data].1,
            },
        ),
{
    let file = head + all_in_file(parts) + tail;
    lemma_head(head, all_in_file(parts) + tail);
    assert(file =~= head + (all_in_file(parts) + tail));
    lemma_parts(head, parts, tail);
    lemma_content_of(file, parts, format, data);
}

/// A file that is not as it should be is not read: it has to start as a WAVE file
/// does, every description of the encoding in it has to be one that can be used,
/// and there have to be one of those and one chunk with samples.
pub proof fn law_unreadable_files(head: Seq<u8>, parts: Seq<(Seq<u8>, Seq<u8>)>, tail: Seq<u8>)
    requires
        head.len() == 12,
        well_named(parts),
        tail.len() < 8,
        (head + all_in_file(parts) + tail).len() <= usize::MAX,
    ensures
        ({
            let result = wav_content(head + all_in_file(parts) + tail);
            let wave = named(head, 0, 'R', 'I', 'F', 'F') && named(head, 8, 'W', 'A', 'V', 'E');
            let broken = exists|k: int|
                0 <= k < parts.len() && describes(#[trigger] parts[k]) && !is_usable(parts[k]);
            let described = exists|k: int| 0 <= k < parts.len() && describes(#[trigger] parts[k]);
            let sampled = exists|k: int| 0 <= k < parts.len() && has_samples(#[trigger] parts[k]);
            &&& !wave <==> result == Err::<WavContent, WavError>(WavError::NotRiff)
            &&& wave && broken <==> result == Err::<WavContent, WavError>(
                WavError::UnsupportedEncoding,
            )
            &&& wave && !described <==> result == Err::<WavContent, WavError>(WavError::NoFormat)
            &&& wave && described && !broken && !sampled <==> result == Err::<WavContent, WavError>(
                WavError::NoData,
            )
        }),
{
    let file = head + all_in_file(parts) + tail;
    let wave = named(head, 0, 'R', 'I', 'F', 'F') && named(head, 8, 'W', 'A', 'V', 'E');
    if wave {
        lemma_head(head, all_in_file(parts) + tail);
        assert(file =~= head + (all_in_file(parts) + tail));
    } else if is_wave(file) {
        assert(file.subrange(0, 4)[0] == head[0] && file.subrange(0, 4)[1] == head[1]
            && file.subrange(0, 4)[2] == head[2] && file.subrange(0, 4)[3] == head[3]);
        assert(file.subrange(8, 12)[0] == head[8] && file.subrange(8, 12)[1] == head[9]
            && file.subrange(8, 12)[2] == head[10] && file.subrange(8, 12)[3] == head[11]);
    }
    lemma_parts(head, parts, tail);
    let chunks = riff_chunks(file, 12);
    let formats = |c: RiffChunk| is_format(c);
    let datas = |c: RiffChunk| is_data(c);
    if exists|k: int|
        0 <= k < parts.len() && describes(#[trigger] parts[k]) && !is_usable(parts[k]) {
        let k = choose|k: int|
            0 <= k < parts.len() && describes(#[trigger] parts[k]) && !is_usable(parts[k]);
        assert(is_unsupported(file, chunks[k]));
    } else {
        assert forall|k: int| 0 <= k < chunks.len() implies !is_unsupported(
            file,
            #[trigger] chunks[k],
        ) by {
            assert(describes(parts[k]) ==> is_usable(parts[k]));
        }
    }
    lemma_last_chunk(chunks, formats);
    lemma_last_chunk(chunks, datas);
    if exists|k: int| 0 <= k < parts.len() && describes(#[trigger] parts[k]) {
        let k = choose|k: int| 0 <= k < parts.len() && describes(#[trigger] parts[k]);
        assert(formats(chunks[k]));
        lemma_some_is_last(chunks, formats, k);
    } else {
        assert forall|k: int| 0 <= k < chunks.len() implies !formats(#[trigger] chunks[k]) by {
            assert(!describes(parts[k]));
        }
        lemma_none_is_last(chunks, formats);
    }
    if exists|k: int| 0 <= k < parts.len() && has_samples(#[trigger] parts[k]) {
        let k = choose|k: int| 0 <= k < parts.len() && has_samples(#[trigger] parts[k]);
        assert(datas(chunks[k]));
        lemma_some_is_last(chunks, datas, k);
    } else {
        assert forall|k: int| 0 <= k < chunks.len() implies !datas(#[trigger] chunks[k]) by {
            assert(!has_samples(parts[k]));
        }
        lemma_none_is_last(chunks, datas);
    }
}

/// A file whose last chunk is longer than what is left of the file is not read.
pub proof fn law_truncated_files(head: Seq<u8>, parts: Seq<(Seq<u8>, Seq<u8>)>, tail: Seq<u8>)
    requires
        head.len() == 12,
        named(head, 0, 'R', 'I', 'F', 'F'),
        named(head, 8, 'W', 'A', 'V', 'E'),
        well_named(parts),
        tail.len() >= 8,
        tail.len() - 8 < number_at(tail, 4) <= usize::MAX - (head + all_in_file(parts)
            + tail).len(),
        forall|k: int|
            0 <= k < parts.len() && describes(#[trigger] parts[k]) ==> is_usable(parts[k]),
    ensures
        wav_content(head + all_in_file(parts) + tail) == Err::<WavContent, WavError>(
            WavError::Truncated,
        ),
{
    let file = head + all_in_file(parts) + tail;
    lemma_head(head, all_in_file(parts) + tail);
    assert(file =~= head + (all_in_file(parts) + tail));
    lemma_parts(head, parts, tail);
    let chunks = riff_chunks(file, 12);
    assert(forall|k: int| 0 <= k < chunks.len() ==> !is_unsupported(file, #[trigger] chunks[k]));
}

proof fn lemma_some_is_last(chunks: Seq<RiffChunk>, kind: spec_fn(RiffChunk) -> bool, at: int)
    requires
        0 <= at < chunks.len(),
        kind(chunks[at]),
    ensures
        last_chunk(chunks, kind) is Some,
    decreases chunks.len(),
{
    if !kind(chunks.last()) {
        assert(chunks.drop_last()[at] == chunks[at]);
        lemma_some_is_last(chunks.drop_last(), kind, at);
    }
}

/// The samples of a recorded segment are those of its first chunk with samples,
/// whatever stands before and behind it.
pub proof fn law_recorded_samples(
    head: Seq<u8>,
    parts: Seq<(Seq<u8>, Seq<u8>)>,
    tail: Seq<u8>,
    data: int,
)
    requires
        head.len() == 12,
        named(head, 0, 'R', 'I', 'F', 'F'),
        named(head, 8, 'W', 'A', 'V', 'E'),
        well_named(parts),
        tail.len() < 8,
        (head + all_in_file(parts) + tail).len() <= usize::MAX,
        0 <= data < parts.len(),
        has_samples(parts[data]),
        forall|k: int| 0 <= k < data ==> !has_samples(#[trigger] parts[k]),
    ensures
        recorded_samples(head + all_in_file(parts) + tail) == Ok::<Seq<u8>, RecordingError>(
            parts[data].1,
        ),
{
    let file = head + all_in_file(parts) + tail;
    lemma_head(head, all_in_file(parts) + tail);
    assert(file =~= head + (all_in_file(parts) + tail));
    lemma_parts(head, parts, tail);
    let chunks = riff_chunks(file, 12);
    lemma_is_first(chunks, |c: RiffChunk| is_data(c), data);
}

/// The samples of the segments stand in the recording one after the other, and a
/// segment that cannot be read, the first of them, fails the recording with its
/// error.
pub proof fn law_segments_in_order(segments: Seq<Seq<u8>>, parts: Seq<Seq<u8>>)
    requires
        parts.len() <= segments.len(),
        forall|k: int|
            0 <= k < parts.len() ==> recorded_samples(#[trigger] segments[k]) == Ok::<
                Seq<u8>,
                RecordingError,
            >(parts[k]),
    ensures
        parts.len() == segments.len() ==> segment_samples(segments) == Ok::<
            Seq<u8>,
            RecordingError,
        >(parts.fold_left(Seq::empty(), |all: Seq<u8>, part: Seq<u8>| all + part)),
        parts.len() < segments.len() ==> (recorded_samples(segments[parts.len() as int]) matches Err(
            e,
        ) ==> segment_samples(segments) == Err::<Seq<u8>, RecordingError>(e)),
    decreases segments.len(),
{
    if segments.len() > 0 {
        let first = segments.drop_last();
        assert(forall|k: int| 0 <= k < first.len() ==> first[k] == segments[k]);
        if parts.len() == segments.len() {
            assert forall|k: int| 0 <= k < first.len() implies recorded_samples(
                #[trigger] first[k],
            ) == Ok::<Seq<u8>, RecordingError>(parts.drop_last()[k]) by {
                assert(first[k] == segments[k]);
            }
            law_segments_in_order(first, parts.drop_last());
            assert(segments[segments.len() - 1] == segments.last());
        } else {
            law_segments_in_order(first, parts);
        }
    }
}

/// What is said of a recording is what it holds.
pub proof fn law_content_of_a_recording(wav: PcmWav<'_>)
    ensures
        wav@.sample_rate == wav.sample_rate,
        wav@.channels == wav.channels,
        wav@.bits_per_sample == wav.bits_per_sample,
        wav@.data == wav.data@,
{
}

/// The byte behind samples of odd length may be missing at the end of a file.
pub proof fn law_last_padding_may_be_missing(
    head: Seq<u8>,
    parts: Seq<(Seq<u8>, Seq<u8>)>,
    last: (Seq<u8>, Seq<u8>),
    format: int,
)
    requires
        head.len() == 12,
        named(head, 0, 'R', 'I', 'F', 'F'),
        named(head, 8, 'W', 'A', 'V', 'E'),
        well_named(parts),
        last.0.len() == 4,
        has_samples(last),
        last.1.len() <= u32::MAX,
        last.1.len() % 2 == 1,
        (head + all_in_file(parts) + in_file(last)).len() <= usize::MAX,
        forall|k: int|
            0 <= k < parts.len() && describes(#[trigger] parts[k]) ==> is_usable(parts[k]),
        0 <= format < parts.len(),
        describes(parts[format]),
        forall|k: int| format < k < parts.len() ==> !describes(#[trigger] parts[k]),
    ensures
        wav_content(head + all_in_file(parts) + in_file(last).drop_last()) == Ok::<
            WavContent,
            WavError,
        >(
            WavContent {
                sample_rate: number_at(parts[format].1, 4),
                channels: short_at(parts[format].1, 2),
                bits_per_sample: short_at(parts[format].1, 14),
                data: last.1,
            },
        ),
{
    let tail = in_file(last).drop_last();
    let file = head + all_in_file(parts) + tail;
    lemma_head(head, all_in_file(parts) + tail);
    assert(file =~= head + (all_in_file(parts) + tail));
    lemma_reads_as(head, parts, tail);
    lemma_unpadded(head + all_in_file(parts), last);
    let chunks = riff_chunks(file, 12);
    let all = parts.push(last);
    let at = parts.len() as int;
    assert(chunks.len() == at + 1);
    assert(!describes(last));
    assert forall|k: int| 0 <= k < all.len() implies is_read_as(
        file,
        #[trigger] chunks[k],
        all[k],
    ) by {
        if k < at {
            assert(all[k] == parts[k]);
            assert(parts[k].0.len() == 4);
            lemma_is_read_as(file, chunks[k], parts[k]);
        }
    }
    assert forall|k: int| 0 <= k < all.len() && describes(#[trigger] all[k]) implies is_usable(
        all[k],
    ) by {
        assert(all[k] == parts[k]);
    }
    assert forall|k: int| format < k < all.len() implies !describes(#[trigger] all[k]) by {
        if k < at {
            assert(all[k] == parts[k]);
        }
    }
    assert(all[format] == parts[format]);
    lemma_content_of(file, all, format, at);
}

proof fn lemma_unpadded(pre: Seq<u8>, last: (Seq<u8>, Seq<u8>))
    requires
        last.0.len() == 4,
        last.1.len() <= u32::MAX,
        last.1.len() % 2 == 1,
        (pre + in_file(last)).len() <= usize::MAX,
    ensures
        ({
            let file = pre + in_file(last).drop_last();
            let end = pre.len() as int;
            &&& riff_chunks(file, end).len() == 1
            &&& riff_end(file, end) == RiffEnd::Complete
            &&& is_read_as(file, riff_chunks(file, end)[0], last)
        }),
{
    let tail = in_file(last).drop_last();
    let file = pre + tail;
    let end = pre.len() as int;
    let n = last.1.len() as int;
    let whole = pre + in_file(last) + Seq::<u8>::empty();
    lemma_one_chunk(pre, last, Seq::empty());
    assert(whole =~= file.push(in_file(last).last()));
    assert(forall|j: int| 0 <= j < file.len() ==> #[trigger] file[j] == whole[j]);
    let chunk = chunk_at(file, end);
    let full = chunk_at(whole, end);
    assert(file.len() == end + 8 + n);
    assert(chunk.tag =~= full.tag);
    assert(chunk.size == full.size);
    assert(chunk_content(file, chunk) =~= chunk_content(whole, full));
    assert(behind(chunk) == file.len() + 1);
    assert(riff_chunks(file, behind(chunk)).len() == 0);
    assert(riff_end(file, behind(chunk)) == RiffEnd::Complete);
    assert(riff_chunks(file, end) =~= seq![chunk]);
    lemma_is_read_as(file, chunk, last);
}

/// A recorded segment that does not start as a WAVE file does is no recording, and
/// one without a chunk with samples has no audio.
pub proof fn law_broken_segments(head: Seq<u8>, parts: Seq<(Seq<u8>, Seq<u8>)>, tail: Seq<u8>)
    requires
        head.len() == 12,
        well_named(parts),
        tail.len() < 8,
        (head + all_in_file(parts) + tail).len() <= usize::MAX,
    ensures
        ({
            let result = recorded_samples(head + all_in_file(parts) + tail);
            let wave = named(head, 0, 'R', 'I', 'F', 'F') && named(head, 8, 'W', 'A', 'V', 'E');
            &&& !wave ==> result == Err::<Seq<u8>, RecordingError>(RecordingError::InvalidFile)
            &&& wave && (forall|k: int|
                0 <= k < parts.len() ==> !has_samples(#[trigger] parts[k])) ==> result == Err::<
                Seq<u8>,
                RecordingError,
            >(RecordingError::NoAudioData)
        }),
{
    let file = head + all_in_file(parts) + tail;
    let wave = named(head, 0, 'R', 'I', 'F', 'F') && named(head, 8, 'W', 'A', 'V', 'E');
    if wave {
        lemma_head(head, all_in_file(parts) + tail);
        assert(file =~= head + (all_in_file(parts) + tail));
    } else if is_wave(file) {
        assert(file.subrange(0, 4)[0] == head[0] && file.subrange(0, 4)[1] == head[1]
            && file.subrange(0, 4)[2] == head[2] && file.subrange(0, 4)[3] == head[3]);
        assert(file.subrange(8, 12)[0] == head[8] && file.subrange(8, 12)[1] == head[9]
            && file.subrange(8, 12)[2] == head[10] && file.subrange(8, 12)[3] == head[11]);
    }
    lemma_parts(head, parts, tail);
    let chunks = riff_chunks(file, 12);
    if forall|k: int| 0 <= k < parts.len() ==> !has_samples(#[trigger] parts[k]) {
        assert forall|k: int| 0 <= k < chunks.len() implies !is_data(#[trigger] chunks[k]) by {
            assert(!has_samples(parts[k]));
        }
        lemma_none_is_first(chunks, |c: RiffChunk| is_data(c));
    }
}

proof fn lemma_none_is_first(chunks: Seq<RiffChunk>, kind: spec_fn(RiffChunk) -> bool)
    requires
        forall|k: int| 0 <= k < chunks.len() ==> !kind(#[trigger] chunks[k]),
    ensures
        first_chunk(chunks, kind) is None,
    decreases chunks.len(),
{
    if chunks.len() > 0 {
        assert(!kind(chunks[0]));
        let rest = chunks.skip(1);
        assert(forall|k: int| 0 <= k < rest.len() ==> rest[k] == chunks[k + 1]);
        lemma_none_is_first(rest, kind);
    }
}

} // verus!
