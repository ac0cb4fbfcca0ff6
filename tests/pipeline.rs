use audilator::analyzer::AudioAnalyzer;
use audilator::controller::VolumeController;
use audilator::pipeline::{first_channel, Pipeline};

#[test]
fn first_channel_of_stereo() {
    assert_eq!(first_channel(&[1, 2, 3, 4, 5, 6], 2), vec![1, 3, 5]);
    assert_eq!(first_channel(&[1, 2, 3, 4, 5], 2), vec![1, 3, 5]);
    assert_eq!(first_channel(&[1, 2, 3, 4, 5, 6, 7], 3), vec![1, 4, 7]);
}

#[test]
fn first_channel_of_mono_and_empty() {
    assert_eq!(first_channel(&[4, -5, 6], 1), vec![4, -5, 6]);
    assert_eq!(first_channel(&[], 2), Vec::<i32>::new());
}

#[test]
fn silence_raises_volume_once_reading_is_due() {
    let analyzer = AudioAnalyzer::new(2048);
    let controller = VolumeController::new(100_000, 700_000, 0).unwrap();
    let mut p = Pipeline::new(analyzer, controller);
    let out = p.on_batch(&vec![0; 1024], 1000);
    assert_eq!(out.loudness, None);
    assert_eq!(out.volume, None);
    assert_eq!(p.controller.current_level(), 500_000);
    let out = p.on_batch(&vec![0; 1024], 1000);
    assert_eq!(out.loudness, Some(0));
    assert_eq!(out.volume, Some(505_000));
}

#[test]
fn loud_batch_lowers_volume() {
    let analyzer = AudioAnalyzer::new(1024);
    let controller = VolumeController::new(100_000, 700_000, 0).unwrap();
    let mut p = Pipeline::new(analyzer, controller);
    let out = p.on_batch(&vec![800_000; 1024], 700);
    assert_eq!(out.loudness, Some(800_000));
    assert_eq!(out.volume, Some(485_000));
    let out = p.on_batch(&vec![800_000; 1024], 800);
    assert_eq!(out.loudness, Some(800_000));
    assert_eq!(out.volume, None);
}
