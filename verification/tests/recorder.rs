use aside::recorder::{
    drain_ring_buffer, drop_report, frame, frame_count, push_samples_tracked, ring_buffer,
    sample_buffer, silence_secs, start_report, DEAD_TAP_THRESHOLD, PREALLOC_DURATION_SECS,
    RING_BUF_SECONDS,
};

fn bits(samples: &[f32]) -> Vec<u32> {
    samples.iter().map(|s| s.to_bits()).collect()
}

// --- push_samples_tracked ---

#[test]
fn silence_detection_all_silent() {
    let (mut producer, _consumer) = rtrb::RingBuffer::new(1024);
    let mut peak = 0u32;
    let mut drops = 0u64;
    let mut silence = 0u64;

    let silent_data = bits(&vec![0.0f32; 480]);
    push_samples_tracked(&mut producer, &mut peak, &mut drops, Some(&mut silence), &silent_data, None);

    assert_eq!(silence, 480);
    assert_eq!(drops, 0);
}

#[test]
fn silence_detection_resets_on_signal() {
    let (mut producer, _consumer) = rtrb::RingBuffer::new(4096);
    let mut peak = 0u32;
    let mut drops = 0u64;
    let mut silence = 0u64;

    // First: accumulate silence
    let silent = bits(&vec![0.0f32; 480]);
    push_samples_tracked(&mut producer, &mut peak, &mut drops, Some(&mut silence), &silent, None);
    assert_eq!(silence, 480);

    // More silence accumulates
    push_samples_tracked(&mut producer, &mut peak, &mut drops, Some(&mut silence), &silent, None);
    assert_eq!(silence, 960);

    // Signal arrives — resets to 0
    let loud = bits(&vec![0.5f32; 100]);
    push_samples_tracked(&mut producer, &mut peak, &mut drops, Some(&mut silence), &loud, None);
    assert_eq!(silence, 0);

    // Silence starts counting from zero again
    push_samples_tracked(&mut producer, &mut peak, &mut drops, Some(&mut silence), &silent, None);
    assert_eq!(silence, 480);
}

#[test]
fn dead_tap_threshold_boundary() {
    let (mut producer, _consumer) = rtrb::RingBuffer::new(1024);
    let mut peak = 0u32;
    let mut drops = 0u64;
    let mut silence = 0u64;
    let threshold = f32::from_bits(DEAD_TAP_THRESHOLD);
    assert_eq!(threshold, 1e-7);

    // Exactly at dead-tap threshold — should count as dead
    let at_threshold = bits(&vec![threshold; 100]);
    push_samples_tracked(&mut producer, &mut peak, &mut drops, Some(&mut silence), &at_threshold, None);
    assert_eq!(silence, 100);

    // Just above dead-tap threshold — should reset (live noise floor)
    let above = bits(&vec![threshold + 1e-6; 100]);
    push_samples_tracked(&mut producer, &mut peak, &mut drops, Some(&mut silence), &above, None);
    assert_eq!(silence, 0);
}

#[test]
fn noise_floor_does_not_trigger_dead_tap() {
    let (mut producer, _consumer) = rtrb::RingBuffer::new(4096);
    let mut peak = 0u32;
    let mut drops = 0u64;
    let mut silence = 0u64;

    // Typical Google Meet noise floor (~0.0002) — live tap, nobody talking
    let noise_floor = bits(&vec![0.0002f32; 480]);
    push_samples_tracked(&mut producer, &mut peak, &mut drops, Some(&mut silence), &noise_floor, None);
    assert_eq!(silence, 0, "noise floor should not count as dead tap");
}

#[test]
fn drop_counting_when_buffer_full() {
    // Tiny buffer — will overflow immediately
    let (mut producer, _consumer) = rtrb::RingBuffer::new(10);
    let mut peak = 0u32;
    let mut drops = 0u64;

    let data = bits(&vec![0.5f32; 50]);
    push_samples_tracked(&mut producer, &mut peak, &mut drops, None, &data, None);

    // 10 fit in the buffer, 40 dropped
    assert_eq!(drops, 40);
}

#[test]
fn peak_tracking() {
    let (mut producer, _consumer) = rtrb::RingBuffer::new(1024);
    let mut peak = 0u32;
    let mut drops = 0u64;

    let data = bits(&[0.1, 0.3, 0.7, 0.2, 0.05]);
    push_samples_tracked(&mut producer, &mut peak, &mut drops, None, &data, None);

    let recorded_peak = f32::from_bits(peak);
    assert!((recorded_peak - 0.7).abs() < 1e-6);
}

#[test]
fn peak_of_a_negative_sample() {
    let (mut producer, _consumer) = rtrb::RingBuffer::new(16);
    let mut peak = 0.25f32.to_bits();
    let mut drops = 0u64;
    push_samples_tracked(&mut producer, &mut peak, &mut drops, None, &bits(&[0.1, -0.5]), None);
    assert_eq!(f32::from_bits(peak), 0.5);
    push_samples_tracked(&mut producer, &mut peak, &mut drops, None, &bits(&[0.3]), None);
    assert_eq!(f32::from_bits(peak), 0.5);
}

#[test]
fn samples_that_are_not_numbers_count_as_dead() {
    let (mut producer, _consumer) = rtrb::RingBuffer::new(16);
    let mut peak = 0u32;
    let mut drops = 0u64;
    let mut silence = 3u64;
    push_samples_tracked(&mut producer, &mut peak, &mut drops, Some(&mut silence), &bits(&[f32::NAN]), None);
    assert_eq!(silence, 4);
    push_samples_tracked(&mut producer, &mut peak, &mut drops, Some(&mut silence), &bits(&[f32::INFINITY]), None);
    assert_eq!(silence, 0);
}

#[test]
fn counters_wrap() {
    let (mut producer, _consumer) = rtrb::RingBuffer::new(0);
    let mut peak = 0u32;
    let mut drops = u64::MAX;
    let mut silence = u64::MAX;
    push_samples_tracked(&mut producer, &mut peak, &mut drops, Some(&mut silence), &bits(&[0.0, 0.0]), None);
    assert_eq!(drops, 1);
    assert_eq!(silence, 1);
}

#[test]
fn no_drops_while_there_is_room() {
    let (mut producer, mut consumer) = ring_buffer(8);
    let mut peak = 0u32;
    let mut drops = 0u64;
    let data: Vec<u32> = (0..8 * RING_BUF_SECONDS as u32).collect();
    push_samples_tracked(&mut producer, &mut peak, &mut drops, None, &data, None);
    assert_eq!(drops, 0);
    push_samples_tracked(&mut producer, &mut peak, &mut drops, None, &[1], None);
    assert_eq!(drops, 1);
    let mut buf = vec![7u32];
    drain_ring_buffer(&mut consumer, &mut buf, Some(&producer));
    assert_eq!(buf[0], 7);
    assert_eq!(&buf[1..], &data[..]);
}

// --- drain_ring_buffer ---

#[test]
fn drain_collects_all_samples() {
    let (mut producer, mut consumer) = rtrb::RingBuffer::new(1024);

    // Push some samples before starting drain
    for i in 0..100 {
        producer.push((i as f32 * 0.01).to_bits()).unwrap();
    }

    // The recording has stopped — drain should still collect what's there
    let mut result = sample_buffer(48000);
    drain_ring_buffer(&mut consumer, &mut result, Some(&producer));
    let result: Vec<f32> = result.iter().map(|b| f32::from_bits(*b)).collect();

    assert_eq!(result.len(), 100);
    assert!((result[0] - 0.0).abs() < 1e-6);
    assert!((result[99] - 0.99).abs() < 1e-6);
}

#[test]
fn drain_preallocation() {
    let (_producer, mut consumer) = rtrb::RingBuffer::<u32>::new(64);

    let mut result = sample_buffer(48000);
    drain_ring_buffer(&mut consumer, &mut result, None);

    // Should have pre-allocated capacity even though it's empty
    assert!(result.capacity() >= 48000 * PREALLOC_DURATION_SECS);
    assert_eq!(result.len(), 0);
}

// --- Integrated: ring buffer pressure simulation ---

#[test]
fn simulated_buffer_pressure() {
    // Simulates a producer pushing faster than consumer drains,
    // verifying drop counting works under contention.
    let (mut producer, mut consumer) = rtrb::RingBuffer::new(100);
    let mut peak = 0u32;

    // Fill buffer to 80%
    for _ in 0..80 {
        producer.push(0.1f32.to_bits()).unwrap();
    }

    // Now push 50 more with drop tracking
    let data = bits(&vec![0.1f32; 50]);
    let mut dropped = 0u64;
    push_samples_tracked(&mut producer, &mut peak, &mut dropped, None, &data, None);
    assert!(dropped > 0, "expected some drops, got 0");
    assert!(dropped <= 50, "can't drop more than we pushed");

    // Drain should recover all non-dropped samples
    let mut drained = sample_buffer(48000);
    drain_ring_buffer(&mut consumer, &mut drained, Some(&producer));
    assert_eq!(drained.len() as u64 + dropped, 130); // 80 + 50 = 130 total
}

#[test]
fn what_is_drained_is_what_was_pushed() {
    let (mut producer, mut consumer) = rtrb::RingBuffer::new(100);
    let mut peak = 0u32;
    let mut drops = 0u64;
    let before: Vec<u32> = (0..80).collect();
    let data: Vec<u32> = (1000..1050).collect();
    push_samples_tracked(&mut producer, &mut peak, &mut drops, None, &before, None);
    assert_eq!(drops, 0);
    push_samples_tracked(&mut producer, &mut peak, &mut drops, None, &data, None);
    assert_eq!(drops, 30);
    let mut drained = Vec::new();
    drain_ring_buffer(&mut consumer, &mut drained, Some(&producer));
    assert_eq!(&drained[..80], &before[..]);
    assert_eq!(&drained[80..], &data[..20]);
    // Taken in two parts, around more that is pushed.
    push_samples_tracked(&mut producer, &mut peak, &mut drops, None, &[1, 2], None);
    drain_ring_buffer(&mut consumer, &mut drained, None);
    push_samples_tracked(&mut producer, &mut peak, &mut drops, None, &[3], None);
    drain_ring_buffer(&mut consumer, &mut drained, Some(&producer));
    assert_eq!(&drained[100..], &[1, 2, 3]);
}

#[test]
fn as_many_go_in_as_slots_are_free() {
    let (mut producer, mut consumer) = rtrb::RingBuffer::new(10);
    let mut peak = 0u32;
    let mut drops = 0u64;
    let mut out = Vec::new();
    let data: Vec<u32> = (0..7).collect();
    push_samples_tracked(&mut producer, &mut peak, &mut drops, None, &data, Some(&consumer));
    assert_eq!(drops, 0);
    // Three slots are free.
    push_samples_tracked(&mut producer, &mut peak, &mut drops, None, &data, Some(&consumer));
    assert_eq!(drops, 4);
    drain_ring_buffer(&mut consumer, &mut out, Some(&producer));
    assert_eq!(out, vec![0, 1, 2, 3, 4, 5, 6, 0, 1, 2]);
    // More have gone in than there is room for, but all slots are free again.
    push_samples_tracked(&mut producer, &mut peak, &mut drops, None, &data, Some(&consumer));
    assert_eq!(drops, 4);
    push_samples_tracked(&mut producer, &mut peak, &mut drops, None, &[], Some(&consumer));
    assert_eq!(drops, 4);
    drain_ring_buffer(&mut consumer, &mut out, Some(&producer));
    assert_eq!(&out[10..], &data[..]);
}

// --- Tap restart threshold ---

#[test]
fn tap_restart_threshold_calculation() {
    let spk_rate: u32 = 48000;
    let threshold_secs: u64 = 10;
    let threshold_samples = threshold_secs * spk_rate as u64;

    assert_eq!(silence_secs(threshold_samples - 1, spk_rate), 9); // not yet at threshold
    assert_eq!(silence_secs(threshold_samples, spk_rate), 10); // at threshold
}

// --- Stereo frames ---

#[test]
fn shorter_channel_is_padded_with_silence() {
    let mic = bits(&vec![0.5f32; 100]);
    let spk = bits(&vec![0.3f32; 50]);
    assert_eq!(frame_count(&mic, &spk), 100);
    assert_eq!(frame_count(&spk, &mic), 100);
    assert_eq!(frame(&mic, &spk, 0), (0.5f32.to_bits(), 0.3f32.to_bits()));
    assert_eq!(frame(&mic, &spk, 49), (0.5f32.to_bits(), 0.3f32.to_bits()));
    assert_eq!(frame(&mic, &spk, 99), (0.5f32.to_bits(), 0.0f32.to_bits()));
    assert_eq!(frame(&spk, &mic, 99), (0.0f32.to_bits(), 0.5f32.to_bits()));
    assert_eq!(frame_count(&[], &[]), 0);
}

// --- Reports ---

#[test]
fn reports() {
    assert_eq!(start_report(48000, 48000), vec!["Recording (mic 48000Hz, speaker 48000Hz)..."]);
    assert_eq!(
        start_report(44100, 48000),
        vec![
            "Recording (mic 44100Hz, speaker 48000Hz)...",
            "Warning: sample rates differ (44100 vs 48000). Using 44100Hz for output.",
        ]
    );
    assert_eq!(drop_report(0, 0), None);
    assert_eq!(drop_report(3, 0).unwrap(), "Warning: dropped samples — mic: 3, speaker: 0");
    assert_eq!(drop_report(0, 12).unwrap(), "Warning: dropped samples — mic: 0, speaker: 12");
}
