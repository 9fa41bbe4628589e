use whisper_relay::chunking::{
    chunking_fits, pack_regions, packing_fits, vad_chunks, SmartChunkConfig,
};
use whisper_relay::vad::{detect_speech, measure_levels, rms_pcm16, speech_regions};
use whisper_relay::wav::{
    merge_wav_segments, parse_pcm_wav, pcm_to_wav, wav_pcm_data, wav_with_pcm, RecordingError,
    WavError,
};

#[test]
fn merges_pcm_from_finalized_wav_segments() {
    let first = wav_with_pcm(&[1, 2, 3, 4]);
    let second = wav_with_pcm(&[5, 6, 7, 8]);
    let mut combined = Vec::new();
    combined.extend_from_slice(wav_pcm_data(&first).unwrap());
    combined.extend_from_slice(wav_pcm_data(&second).unwrap());
    let merged = wav_with_pcm(&combined);

    assert_eq!(wav_pcm_data(&merged).unwrap(), &[1, 2, 3, 4, 5, 6, 7, 8]);
    assert_eq!(u32::from_le_bytes(merged[40..44].try_into().unwrap()), 8);
}

#[test]
fn vad_skips_silence_and_splits_long_speech_with_overlap() {
    let sample_rate = 16_000_u32;
    let mut pcm = vec![0_u8; sample_rate as usize * 2];
    for _ in 0..(sample_rate as usize * 40) {
        pcm.extend_from_slice(&2_000_i16.to_le_bytes());
    }
    pcm.resize(pcm.len() + sample_rate as usize * 2, 0);
    let bytes = pcm_to_wav(&pcm, sample_rate, 1).unwrap();
    let wav = parse_pcm_wav(&bytes).unwrap();
    let chunks = vad_chunks(
        &wav,
        &SmartChunkConfig {
            enabled: true,
            concurrency: 2,
            target_seconds: 25,
            max_seconds: 28,
        },
    )
    .unwrap();

    assert_eq!(chunks.len(), 2);
    assert!(!chunks[0].overlap_before);
    assert!(chunks[1].overlap_before);
    assert!(chunks[0].start_ms < 1_000);
    assert!(chunks[1].start_ms < chunks[0].end_ms);
    assert!(chunks[1].end_ms > 40_000);
    assert!(chunks.iter().all(|chunk| parse_pcm_wav(&chunk.wav).is_ok()));
}

#[test]
fn vad_does_not_submit_silence() {
    let bytes = pcm_to_wav(&vec![0; 16_000 * 2 * 10], 16_000, 1).unwrap();
    let wav = parse_pcm_wav(&bytes).unwrap();
    let chunks = vad_chunks(
        &wav,
        &SmartChunkConfig {
            enabled: true,
            concurrency: 1,
            target_seconds: 25,
            max_seconds: 28,
        },
    )
    .unwrap();
    assert!(chunks.is_empty());
}

fn default_chunking() -> SmartChunkConfig {
    SmartChunkConfig {
        enabled: true,
        concurrency: 4,
        target_seconds: 25,
        max_seconds: 28,
    }
}

fn tone(seconds: usize, level: i16) -> Vec<u8> {
    let mut pcm = Vec::new();
    for _ in 0..16_000 * seconds {
        pcm.extend_from_slice(&level.to_le_bytes());
    }
    pcm
}

#[test]
fn forced_cut_overlaps_by_exactly_one_second() {
    let mut pcm = tone(1, 0);
    pcm.extend(tone(40, 2_000));
    pcm.extend(tone(1, 0));
    let bytes = pcm_to_wav(&pcm, 16_000, 1).unwrap();
    let wav = parse_pcm_wav(&bytes).unwrap();
    assert!(chunking_fits(&wav, &default_chunking()));
    let chunks = vad_chunks(&wav, &default_chunking()).unwrap();

    // 13 frames of 20 ms stand before the speech, which starts after a second.
    assert_eq!(chunks[0].index, 0);
    assert_eq!(chunks[0].start_ms, 740);
    assert_eq!(chunks[0].end_ms, 28_740);
    assert_eq!(chunks[1].index, 1);
    assert_eq!(chunks[1].start_ms, 27_740);
    assert_eq!(chunks[1].end_ms, 41_260);
    let first = parse_pcm_wav(&chunks[0].wav).unwrap();
    assert_eq!(first.sample_rate, 16_000);
    assert_eq!(first.channels, 1);
    assert_eq!(first.bits_per_sample, 16);
    assert_eq!(first.data.len(), 28 * 32_000);
    assert_eq!(first.data, &pcm[740 * 32..28_740 * 32]);
}

#[test]
fn speech_with_short_pauses_is_one_chunk_and_with_long_ones_two() {
    let mut close = tone(1, 0);
    close.extend(tone(2, 2_000));
    close.extend(tone(1, 0));
    close.extend(tone(2, 2_000));
    close.extend(tone(1, 0));
    let bytes = pcm_to_wav(&close, 16_000, 1).unwrap();
    let chunks = vad_chunks(&parse_pcm_wav(&bytes).unwrap(), &default_chunking()).unwrap();
    assert_eq!(chunks.len(), 1);

    let mut far = tone(1, 0);
    far.extend(tone(15, 2_000));
    far.extend(tone(5, 0));
    far.extend(tone(15, 2_000));
    far.extend(tone(1, 0));
    let bytes = pcm_to_wav(&far, 16_000, 1).unwrap();
    let chunks = vad_chunks(&parse_pcm_wav(&bytes).unwrap(), &default_chunking()).unwrap();
    assert_eq!(chunks.len(), 2);
    assert!(!chunks[1].overlap_before);
    assert!(chunks[1].start_ms >= chunks[0].end_ms);
    assert!(chunks.iter().all(|chunk| chunk.start_ms < chunk.end_ms));
}

#[test]
fn chunking_of_an_unplayable_or_oversized_recording_is_not_offered() {
    let bytes = pcm_to_wav(&tone(1, 0), 16_000, 1).unwrap();
    let mut wav = parse_pcm_wav(&bytes).unwrap();
    assert!(chunking_fits(&wav, &default_chunking()));
    wav.channels = 0;
    assert!(!chunking_fits(&wav, &default_chunking()));
    wav.channels = 1;
    let short = SmartChunkConfig {
        max_seconds: 1,
        ..default_chunking()
    };
    assert!(chunking_fits(&wav, &short));
    let speech = pcm_to_wav(&tone(3, 2_000), 16_000, 1).unwrap();
    let speech = parse_pcm_wav(&speech).unwrap();
    assert!(!chunking_fits(&speech, &short));

    // A header that could not be written for a chunk does not matter in silence.
    wav.sample_rate = 4_000_000_000;
    assert!(chunking_fits(&wav, &default_chunking()));
    assert!(vad_chunks(&wav, &default_chunking()).unwrap().is_empty());
    let loud = tone(50, 2_000);
    wav.sample_rate = 50;
    wav.channels = 40_000;
    wav.data = &loud;
    assert!(!chunking_fits(&wav, &default_chunking()));
    let quiet = vec![0; loud.len()];
    wav.data = &quiet;
    assert!(chunking_fits(&wav, &default_chunking()));
    wav.sample_rate = 16_000;
    wav.channels = 1;

    // Chunks that may be longer than any file are no longer than the recording.
    let long = SmartChunkConfig {
        max_seconds: 1_000_000,
        ..default_chunking()
    };
    assert!(chunking_fits(&wav, &long));
    let bytes = pcm_to_wav(&tone(40, 2_000), 16_000, 1).unwrap();
    let wav = parse_pcm_wav(&bytes).unwrap();
    assert!(chunking_fits(&wav, &long));
    assert_eq!(vad_chunks(&wav, &long).unwrap().len(), 1);
}

#[test]
fn a_recording_shorter_than_a_sample_has_no_chunks() {
    let bytes = pcm_to_wav(&[7], 16_000, 1).unwrap();
    let chunks = vad_chunks(&parse_pcm_wav(&bytes).unwrap(), &default_chunking()).unwrap();
    assert!(chunks.is_empty());
}

#[test]
fn level_is_the_root_mean_square() {
    let mut bytes = Vec::new();
    for value in [3_i16, -4, 3, -4] {
        bytes.extend_from_slice(&value.to_le_bytes());
    }
    // The mean of the squares is 12 with the fraction dropped.
    assert_eq!(rms_pcm16(&bytes), 3);
    assert_eq!(rms_pcm16(&[]), 0);
    assert_eq!(rms_pcm16(&[9]), 0);
    assert_eq!(rms_pcm16(&i16::MIN.to_le_bytes()), 32_768);
    assert_eq!(rms_pcm16(&i16::MAX.to_le_bytes()), 32_767);
}

#[test]
fn levels_are_measured_frame_by_frame() {
    let mut bytes = Vec::new();
    for value in [100_i16, 100, -200, -200, 300] {
        bytes.extend_from_slice(&value.to_le_bytes());
    }
    assert_eq!(measure_levels(&bytes, 4), vec![100, 200, 300]);
}

#[test]
fn threshold_adapts_to_the_noise() {
    // The noise is 100, so that speech starts at 300.
    let mut levels = vec![100_u32; 8];
    levels.extend([1_000, 1_000]);
    levels.push(299);
    levels.push(300);
    let speech = detect_speech(&levels);
    assert_eq!(&speech[8..], &[true, true, false, true]);
    assert!(speech[..8].iter().all(|frame| !frame));

    // Half of the speech level bounds the threshold, and 120 is the least.
    assert_eq!(detect_speech(&vec![119, 120]), vec![false, true]);
    assert_eq!(
        detect_speech(&vec![400, 400, 400, 400, 400]),
        vec![true; 5]
    );
}

#[test]
fn regions_are_padded_and_joined() {
    let mut speech = vec![false; 40];
    for frame in speech.iter_mut().take(15).skip(5) {
        *frame = true;
    }
    for frame in speech.iter_mut().take(32).skip(22) {
        *frame = true;
    }
    assert_eq!(speech_regions(&speech, 10, 3, 1), vec![(4, 16), (21, 33)]);
    assert_eq!(speech_regions(&speech, 10, 5, 1), vec![(4, 33)]);
    assert_eq!(speech_regions(&speech, 11, 5, 1), vec![]);
    assert_eq!(speech_regions(&speech, 10, 0, 20), vec![(0, 40)]);
    assert_eq!(speech_regions(&[true, true], 2, 0, 0), vec![(0, 2)]);
}

#[test]
fn regions_are_packed_up_to_the_target_and_cut_at_the_maximum() {
    // Ten samples a second, two samples a frame.
    assert_eq!(
        pack_regions(&[(0, 5), (10, 15), (30, 35)], 2, 10, 4, 6),
        vec![(0, 30, false), (60, 70, false)]
    );
    assert_eq!(
        pack_regions(&[(0, 60)], 2, 10, 4, 6),
        vec![(0, 60, false), (50, 110, true), (100, 120, true)]
    );
    assert_eq!(pack_regions(&[], 2, 10, 4, 6), vec![]);
    // A region that follows a cut can still join the rest of the one before it.
    assert_eq!(
        pack_regions(&[(0, 40), (41, 45)], 2, 10, 5, 6),
        vec![(0, 60, false), (50, 90, true)]
    );
}

#[test]
fn regions_that_would_be_cut_without_end_are_not_packed() {
    assert!(packing_fits(&[(0, 10)], 1, 10, 2, 1));
    assert!(!packing_fits(&[(0, 11)], 1, 10, 2, 1));
    assert!(packing_fits(&[(0, 21)], 1, 10, 2, 2));
    assert!(!packing_fits(&[(0, usize::MAX)], 2, 10, 2, 2));
    assert!(!packing_fits(&[], 1, 10, usize::MAX, 2));
    // Regions may touch, and the chunk before a forced cut is full.
    assert_eq!(
        pack_regions(&[(0, 20), (20, 45)], 1, 10, 1, 2),
        vec![(0, 20, false), (20, 40, false), (30, 45, true)]
    );
}

#[test]
fn wav_round_trip_keeps_encoding_and_samples() {
    let pcm: Vec<u8> = (0..=255).collect();
    let bytes = pcm_to_wav(&pcm, 48_000, 2).unwrap();
    let wav = parse_pcm_wav(&bytes).unwrap();
    assert_eq!(wav.sample_rate, 48_000);
    assert_eq!(wav.channels, 2);
    assert_eq!(wav.bits_per_sample, 16);
    assert_eq!(wav.data, &pcm[..]);
    assert_eq!(bytes.len(), 44 + 256);
    assert_eq!(&bytes[..4], b"RIFF");
    assert_eq!(u32::from_le_bytes(bytes[4..8].try_into().unwrap()), 36 + 256);
    assert_eq!(
        u32::from_le_bytes(bytes[28..32].try_into().unwrap()),
        48_000 * 4
    );
}

fn error_of(bytes: &[u8]) -> Option<WavError> {
    parse_pcm_wav(bytes).err()
}

fn chunk(tag: &[u8], content: &[u8]) -> Vec<u8> {
    let mut out = tag.to_vec();
    out.extend_from_slice(&(content.len() as u32).to_le_bytes());
    out.extend_from_slice(content);
    if content.len() % 2 == 1 {
        out.push(0);
    }
    out
}

fn format_chunk(codec: u16, channels: u16, rate: u32, bits: u16) -> Vec<u8> {
    let mut content = Vec::new();
    content.extend_from_slice(&codec.to_le_bytes());
    content.extend_from_slice(&channels.to_le_bytes());
    content.extend_from_slice(&rate.to_le_bytes());
    content.extend_from_slice(&[0; 6]);
    content.extend_from_slice(&bits.to_le_bytes());
    chunk(b"fmt ", &content)
}

fn wave(chunks: &[Vec<u8>]) -> Vec<u8> {
    let mut out = b"RIFF\0\0\0\0WAVE".to_vec();
    for chunk in chunks {
        out.extend_from_slice(chunk);
    }
    out
}

#[test]
fn every_fault_of_a_wav_file_is_told_apart() {
    assert_eq!(error_of(b""), Some(WavError::NotRiff));
    assert_eq!(error_of(b"RIFX\0\0\0\0WAVE"), Some(WavError::NotRiff));
    assert_eq!(error_of(&wave(&[])), Some(WavError::NoFormat));
    assert_eq!(
        error_of(&wave(&[format_chunk(1, 1, 16_000, 16)])),
        Some(WavError::NoData)
    );
    assert_eq!(
        error_of(&wave(&[chunk(b"data", &[1, 2])])),
        Some(WavError::NoFormat)
    );
    for bad in [
        format_chunk(3, 1, 16_000, 16),
        format_chunk(1, 0, 16_000, 16),
        format_chunk(1, 1, 0, 16),
    ] {
        assert_eq!(error_of(&wave(&[bad])), Some(WavError::UnsupportedEncoding));
    }
    let mut cut = wave(&[format_chunk(1, 1, 16_000, 16), chunk(b"data", &[1, 2, 3, 4])]);
    cut.pop();
    assert_eq!(error_of(&cut), Some(WavError::Truncated));
    assert_eq!(WavError::Truncated.message(), "truncated WAV chunk");
    assert_eq!(WavError::NotRiff.message(), "not a RIFF/WAVE file");
    assert_eq!(WavError::NoFormat.message(), "WAV has no fmt chunk");
    assert_eq!(WavError::NoData.message(), "WAV has no data chunk");
    assert_eq!(
        WavError::UnsupportedEncoding.message(),
        "unsupported WAV encoding"
    );
    assert_eq!(WavError::SizeOverflow.message(), "WAV chunk size overflow");
    assert_eq!(WavError::TooLarge.message(), "WAV chunk exceeds RIFF size");
}

#[test]
fn other_chunks_are_skipped_and_the_last_samples_count() {
    let file = wave(&[
        chunk(b"LIST", &[1, 2, 3]),
        format_chunk(1, 2, 8_000, 24),
        chunk(b"data", &[1, 2]),
        chunk(b"data", &[3, 4, 5]),
    ]);
    let wav = parse_pcm_wav(&file).unwrap();
    assert_eq!(wav.data, &[3, 4, 5]);
    assert_eq!(wav.bits_per_sample, 24);
    // A recording takes the first samples instead.
    assert_eq!(wav_pcm_data(&file).unwrap(), &[1, 2]);
}

#[test]
fn faults_of_recorded_segments_are_told_apart() {
    assert_eq!(wav_pcm_data(b"nothing"), Err(RecordingError::InvalidFile));
    assert_eq!(wav_pcm_data(&wave(&[])), Err(RecordingError::NoAudioData));
    let mut cut = wav_with_pcm(&[1, 2]);
    cut.pop();
    assert_eq!(wav_pcm_data(&cut), Err(RecordingError::NoAudioData));
    assert_eq!(
        RecordingError::InvalidFile.message(),
        "recorder produced an invalid WAV file"
    );
    assert_eq!(
        RecordingError::NoAudioData.message(),
        "recorder WAV file has no audio data"
    );
}

#[test]
fn segments_are_merged_into_one_recording() {
    let segments = vec![
        wav_with_pcm(&[1, 2]),
        wav_with_pcm(&[]),
        wav_with_pcm(&[3, 4, 5, 6]),
    ];
    let merged = merge_wav_segments(&segments).unwrap();
    assert_eq!(wav_pcm_data(&merged).unwrap(), &[1, 2, 3, 4, 5, 6]);
    let wav = parse_pcm_wav(&merged).unwrap();
    assert_eq!(wav.sample_rate, 16_000);
    assert_eq!(wav.channels, 1);

    assert_eq!(
        merge_wav_segments(&vec![wav_with_pcm(&[])]),
        Err(RecordingError::Empty)
    );
    assert_eq!(
        RecordingError::Empty.message(),
        "meeting recording contained no audio"
    );
    assert_eq!(
        merge_wav_segments(&vec![b"no file".to_vec()]),
        Err(RecordingError::InvalidFile)
    );
}
