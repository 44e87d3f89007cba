use bachmodem::rake::cross_correlation;
use bachmodem::rake::RakeReceiver;
use bachmodem::rake::SAMPLE_SCALE;

#[test]
fn test_cross_correlation_values() {
    let signal: Vec<i64> = vec![1, 2, 3];
    let reference: Vec<i64> = vec![1, 1];
    assert_eq!(cross_correlation(&signal, &reference), vec![3, 5]);
}

#[test]
fn test_cross_correlation_short_signal() {
    let signal: Vec<i64> = vec![1];
    let reference: Vec<i64> = vec![1, 1];
    assert_eq!(cross_correlation(&signal, &reference), vec![0]);
}

#[test]
fn test_combine_without_fingers_passes_signal_through() {
    let receiver = RakeReceiver::new(3, 50);
    let signal: Vec<i64> = (0..1500).map(|i| (i % 100) as i64).collect();
    let combined = receiver.combine_paths(&signal);
    assert_eq!(combined, signal);
}

#[test]
fn test_detect_finds_the_delayed_reference() {
    let reference: Vec<i64> = vec![SAMPLE_SCALE; 4];
    let mut signal: Vec<i64> = vec![0; 1100];
    for j in 0..4 {
        signal[3 + j] = SAMPLE_SCALE;
    }
    let mut receiver = RakeReceiver::new(3, 50);
    receiver.detect_paths(&signal, &reference);
    assert_eq!(receiver.fingers.len(), 1);
    assert_eq!(receiver.fingers[0].delay, 3);
    assert_eq!(receiver.fingers[0].amplitude, 4 * SAMPLE_SCALE * SAMPLE_SCALE);
    assert_eq!(receiver.fingers[0].weight, 4 * SAMPLE_SCALE * SAMPLE_SCALE);
}

#[test]
fn test_combine_aligns_one_finger() {
    let reference: Vec<i64> = vec![SAMPLE_SCALE; 4];
    let mut signal: Vec<i64> = vec![0; 1100];
    for j in 0..4 {
        signal[3 + j] = SAMPLE_SCALE;
    }
    let mut receiver = RakeReceiver::new(3, 50);
    let combined = receiver.process(&signal, &reference);
    // One finger of weight w contributes (x * w) / w = x, shifted by
    // its delay.
    assert_eq!(combined.len(), 1100 - 3);
    for j in 0..4 {
        assert_eq!(combined[j], SAMPLE_SCALE);
    }
    assert!(combined[4..].iter().all(|&v| v == 0));
}

#[test]
fn test_combine_too_short_after_delay_passes_through() {
    let reference: Vec<i64> = vec![SAMPLE_SCALE; 4];
    let mut signal: Vec<i64> = vec![0; 1100];
    for j in 0..4 {
        signal[3 + j] = SAMPLE_SCALE;
    }
    let mut receiver = RakeReceiver::new(3, 50);
    receiver.detect_paths(&signal, &reference);
    let short: Vec<i64> = vec![7; 500];
    assert_eq!(receiver.combine_paths(&short), short);
}

#[test]
fn test_detect_keeps_receiver_on_short_signal() {
    let reference: Vec<i64> = vec![SAMPLE_SCALE; 8];
    let signal: Vec<i64> = vec![0; 4];
    let mut receiver = RakeReceiver::new(2, 10);
    receiver.detect_paths(&signal, &reference);
    assert_eq!(receiver.fingers.len(), 0);
    assert_eq!(receiver.num_fingers, 2);
    assert_eq!(receiver.max_delay, 10);
}

#[test]
fn test_two_paths_combine_with_mrc_weights() {
    // Two copies of the reference, the second at delay 8 and half as
    // strong.
    let reference: Vec<i64> = vec![SAMPLE_SCALE; 4];
    let mut signal: Vec<i64> = vec![0; 1200];
    for j in 0..4 {
        signal[j] = SAMPLE_SCALE;
        signal[8 + j] = SAMPLE_SCALE / 2;
    }
    let mut receiver = RakeReceiver::new(2, 50);
    receiver.detect_paths(&signal, &reference);
    assert_eq!(receiver.fingers.len(), 2);
    assert_eq!(receiver.fingers[0].delay, 0);
    assert_eq!(receiver.fingers[1].delay, 8);
    let w0 = receiver.fingers[0].weight;
    let w1 = receiver.fingers[1].weight;
    assert_eq!(w0, 4 * SAMPLE_SCALE * SAMPLE_SCALE);
    assert_eq!(w1, 2 * SAMPLE_SCALE * SAMPLE_SCALE);
    let combined = receiver.combine_paths(&signal);
    assert_eq!(combined.len(), 1200 - 8);
    // Sample 0 overlays signal[0] (strong path) and signal[8] (weak
    // path): (256 * w0 + 128 * w1) / (w0 + w1) = 213 truncated.
    let expected = (SAMPLE_SCALE * w0 + (SAMPLE_SCALE / 2) * w1) / (w0 + w1);
    assert_eq!(combined[0], expected);
}
