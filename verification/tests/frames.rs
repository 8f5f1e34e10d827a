use playout::audio_buffer::{finite_or_zero, interleave, AudioBuffer, AudioBufferError};
use playout::picture::fill_plane;

fn bits(samples: &[f32]) -> Vec<u32> {
    samples.iter().map(|sample| sample.to_bits()).collect()
}

#[test]
fn only_numbers_are_encoded() {
    for sample in [0.0_f32, -0.0, 1.0, -1.5, f32::MAX, f32::MIN_POSITIVE, 1e-42] {
        assert_eq!(finite_or_zero(sample.to_bits()), sample.to_bits());
    }
    for sample in [f32::NAN, f32::INFINITY, f32::NEG_INFINITY, -f32::NAN] {
        assert_eq!(finite_or_zero(sample.to_bits()), 0);
    }
}

#[test]
fn samples_are_cut_into_frames() {
    let mut buffer = AudioBuffer::new();
    assert!(buffer.take_frame(2).unwrap().is_none());
    buffer.push(&bits(&[1.0, 2.0, 3.0]), &bits(&[-1.0, f32::NAN, -3.0]), Some(100));
    buffer.push(&bits(&[4.0, 5.0]), &bits(&[-4.0, -5.0]), Some(999));
    let first = buffer.take_frame(2).unwrap().unwrap();
    assert_eq!(first.pts, Some(100));
    assert_eq!(first.left, bits(&[1.0, 2.0]));
    assert_eq!(first.right, bits(&[-1.0, 0.0]));
    let second = buffer.take_frame(2).unwrap().unwrap();
    assert_eq!(second.pts, Some(102));
    assert_eq!(second.left, bits(&[3.0, 4.0]));
    assert!(buffer.take_frame(2).unwrap().is_none());
    buffer.pad(2);
    let last = buffer.take_frame(2).unwrap().unwrap();
    assert_eq!(last.pts, Some(104));
    assert_eq!(last.left, bits(&[5.0, 0.0]));
    assert_eq!(last.right, bits(&[-5.0, 0.0]));
    assert!(buffer.take_frame(2).unwrap().is_none());
    buffer.push(&bits(&[6.0, 7.0]), &bits(&[6.0, 7.0]), Some(500));
    assert_eq!(buffer.take_frame(2).unwrap().unwrap().pts, Some(500));
}

#[test]
fn samples_keep_order_and_time() {
    let mut buffer = AudioBuffer::new();
    let mut out: Vec<u32> = Vec::new();
    let mut sent: u32 = 0;
    for count in [3_u32, 0, 7, 1, 12, 5] {
        let chunk: Vec<u32> = (sent..sent + count).collect();
        buffer.push(&chunk, &chunk, Some(i64::from(sent)));
        sent += count;
        while let Some(frame) = buffer.take_frame(4).unwrap() {
            assert_eq!(frame.pts, Some(out.len() as i64));
            out.extend(frame.left);
        }
    }
    assert_eq!(out, (0..28).collect::<Vec<u32>>());
}

#[test]
fn frames_have_samples() {
    let mut buffer = AudioBuffer::new();
    assert!(matches!(buffer.take_frame(0), Err(AudioBufferError::ZeroFrameSize)));
}

#[test]
fn an_empty_buffer_is_not_padded() {
    let mut buffer = AudioBuffer::new();
    buffer.pad(4);
    assert!(buffer.take_frame(4).unwrap().is_none());
    buffer.push(&[], &[], Some(1));
    assert_eq!(buffer.pts, None);
}

#[test]
fn padding_cuts_what_is_too_long() {
    let mut buffer = AudioBuffer::new();
    buffer.push(&[1, 2, 3], &[4, 5, 6], None);
    buffer.pad(2);
    let frame = buffer.take_frame(2).unwrap().unwrap();
    assert_eq!((frame.pts, frame.left, frame.right), (None, vec![1, 2], vec![4, 5]));
    assert!(buffer.take_frame(1).unwrap().is_none());
}

#[test]
fn channels_are_interleaved() {
    let left = bits(&[1.0, f32::NAN, 3.0]);
    let right = bits(&[-1.0, -2.0]);
    assert_eq!(interleave(&left, &right), bits(&[1.0, -1.0, 0.0, -2.0]));
    assert_eq!(interleave(&[], &right), vec![]);
}

#[test]
fn planes_turn_black() {
    let mut luma = vec![7_u8; 11];
    fill_plane(&mut luma, 0, 3, 3, 4);
    assert_eq!(luma, vec![16, 16, 16, 7, 16, 16, 16, 7, 16, 16, 16]);
    let mut chroma = vec![7_u8; 6];
    fill_plane(&mut chroma, 1, 5, 5, 3);
    assert_eq!(chroma, vec![128, 128, 7, 128, 128, 7]);
    let mut empty: Vec<u8> = vec![1];
    fill_plane(&mut empty, 2, 1, 1, 1);
    assert_eq!(empty, vec![1]);
}

#[test]
fn no_frame_needs_no_timestamp() {
    let mut buffer = AudioBuffer::new();
    buffer.push(&[1], &[2], Some(i64::MAX));
    assert!(buffer.take_frame(2).unwrap().is_none());
    assert!(matches!(buffer.take_frame(0), Err(AudioBufferError::ZeroFrameSize)));
}
