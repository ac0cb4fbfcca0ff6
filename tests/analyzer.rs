use audilator::analyzer::AudioAnalyzer;

#[test]
fn empty_window_reads_zero() {
    let a = AudioAnalyzer::new(2048);
    assert_eq!(a.calculate_rms(), 0);
}

#[test]
fn rms_of_alternating_signal() {
    let mut a = AudioAnalyzer::new(4);
    assert_eq!(a.add_samples(&[3, -3, 3, -3]), None);
    assert_eq!(a.calculate_rms(), 3);
}

#[test]
fn rms_rounds_down() {
    // mean of squares is 12.5, whose square root is about 3.54
    let mut a = AudioAnalyzer::new(2);
    a.add_samples(&[3, 4]);
    assert_eq!(a.calculate_rms(), 3);
    let mut b = AudioAnalyzer::new(2);
    b.add_samples(&[300_000, 400_000]);
    // sqrt(125_000_000_000) = 353553.39...
    assert_eq!(b.calculate_rms(), 353_553);
}

#[test]
fn rms_of_extreme_samples() {
    let mut a = AudioAnalyzer::new(3);
    a.add_samples(&[i32::MIN, i32::MIN, i32::MIN]);
    assert_eq!(a.calculate_rms(), 2_147_483_648);
}

#[test]
fn oldest_samples_are_evicted() {
    let mut a = AudioAnalyzer::new(2);
    a.add_samples(&[1_000_000, 0, 0]);
    assert_eq!(a.window_len(), 2);
    assert_eq!(a.calculate_rms(), 0);
    a.add_samples(&[5]);
    assert_eq!(a.calculate_rms(), 3); // sqrt(12) = 3.46
    assert_eq!(a.samples_seen(), 4);
}

#[test]
fn first_reading_after_window_fills() {
    let mut a = AudioAnalyzer::new(2048);
    for i in 0..2048u32 {
        let r = a.add_samples(&[1000]);
        if i + 1 == 2048 {
            assert_eq!(r, Some(1000));
        } else {
            assert_eq!(r, None, "no reading expected after {} samples", i + 1);
        }
    }
    assert_eq!(a.samples_seen(), 2048);
}

#[test]
fn readings_follow_cadence() {
    let mut a = AudioAnalyzer::new(2048);
    assert_eq!(a.add_samples(&vec![7; 2048]), Some(7));
    assert_eq!(a.add_samples(&vec![7; 1000]), None);
    assert_eq!(a.add_samples(&vec![7; 24]), Some(7));
    assert_eq!(a.add_samples(&[]), Some(7));
}

#[test]
fn batch_crossing_boundaries_reads_once() {
    let mut a = AudioAnalyzer::new(2048);
    // crosses 1024, 2048 and 3072 but ends at 3500
    assert_eq!(a.add_samples(&vec![2; 3500]), None);
    assert_eq!(a.add_samples(&vec![2; 596]), Some(2));
}

#[test]
fn nothing_read_before_any_sample() {
    let mut a = AudioAnalyzer::new(0);
    assert_eq!(a.add_samples(&[]), None);
    assert_eq!(a.add_samples(&vec![9; 1024]), Some(0));
}

#[test]
fn chunking_does_not_change_loudness() {
    let samples: Vec<i32> = (0..5000i32).map(|i| (i * 7919) % 20_001 - 10_000).collect();
    let mut whole = AudioAnalyzer::new(2048);
    whole.add_samples(&samples);
    let mut pieces = AudioAnalyzer::new(2048);
    let mut start = 0usize;
    let mut size = 1usize;
    while start < samples.len() {
        let end = (start + size).min(samples.len());
        pieces.add_samples(&samples[start..end]);
        start = end;
        size = size * 3 % 701 + 1;
    }
    assert_eq!(pieces.samples_seen(), whole.samples_seen());
    let mut last = AudioAnalyzer::new(2048);
    last.add_samples(&samples[samples.len() - 2048..]);
    assert_eq!(pieces.calculate_rms(), whole.calculate_rms());
    assert_eq!(whole.calculate_rms(), last.calculate_rms());
}
