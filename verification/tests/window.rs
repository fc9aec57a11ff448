use freq_plotter::convert::Frequency;
use freq_plotter::window::{MeasurementWindow, Sample};

fn single_channel_window() -> MeasurementWindow {
    MeasurementWindow::new_with_channels(100, vec!["signal".to_string()])
}

#[test]
fn empty_measurements() {
    let w = MeasurementWindow::new_with_channels(123, vec!["one".into(), "two".into()]);
    assert_eq!(w.channel_names, vec!["one".to_string(), "two".to_string()]);
    assert!(w.values.iter().all(|deque| deque.is_empty()));
}

#[test]
fn appends_one_value() {
    let mut w = single_channel_window();

    w.add_row(10, &[Frequency::from_hz(20)]);
    assert_eq!(w.values[0].len(), 1);
    assert_eq!(
        w.values[0].back().copied(),
        Some(Sample::new(10, Frequency::from_hz(20)))
    );
}

#[test]
fn clears_on_out_of_order() {
    let mut w = single_channel_window();

    w.add_row(10, &[Frequency::from_hz(20)]);
    w.add_row(20, &[Frequency::from_hz(30)]);
    w.add_row(19, &[Frequency::from_hz(100)]);
    assert_eq!(w.values[0].len(), 1);
    assert_eq!(
        w.values[0].back().copied(),
        Some(Sample::new(19, Frequency::from_hz(100)))
    );
}

#[test]
fn trims_to_look_behind_window() {
    let mut w = single_channel_window();

    for x in 0..=20u64 {
        w.add_row(x * 10, &[Frequency::from_hz(x)]);
    }

    let collected: Vec<_> = w.values[0].iter().copied().collect();
    assert_eq!(
        collected,
        vec![
            Sample::new(100, Frequency::from_hz(10)),
            Sample::new(110, Frequency::from_hz(11)),
            Sample::new(120, Frequency::from_hz(12)),
            Sample::new(130, Frequency::from_hz(13)),
            Sample::new(140, Frequency::from_hz(14)),
            Sample::new(150, Frequency::from_hz(15)),
            Sample::new(160, Frequency::from_hz(16)),
            Sample::new(170, Frequency::from_hz(17)),
            Sample::new(180, Frequency::from_hz(18)),
            Sample::new(190, Frequency::from_hz(19)),
            Sample::new(200, Frequency::from_hz(20)),
        ]
    );
}

#[test]
fn multi_channel_updates_all_series() {
    let mut w = MeasurementWindow::new_with_channels(100, vec!["a".into(), "b".into(), "c".into()]);

    w.add_row(
        1,
        &[
            Frequency::from_hz(1),
            Frequency::from_hz(2),
            Frequency::from_hz(3),
        ],
    );
    w.add_row(
        2,
        &[
            Frequency::from_hz(2),
            Frequency::from_hz(3),
            Frequency::from_hz(4),
        ],
    );

    let a: Vec<_> = w.values[0].iter().copied().collect();
    let b: Vec<_> = w.values[1].iter().copied().collect();
    let c: Vec<_> = w.values[2].iter().copied().collect();

    assert_eq!(
        a,
        vec![
            Sample::new(1, Frequency::from_hz(1)),
            Sample::new(2, Frequency::from_hz(2))
        ]
    );
    assert_eq!(
        b,
        vec![
            Sample::new(1, Frequency::from_hz(2)),
            Sample::new(2, Frequency::from_hz(3))
        ]
    );
    assert_eq!(
        c,
        vec![
            Sample::new(1, Frequency::from_hz(3)),
            Sample::new(2, Frequency::from_hz(4))
        ]
    );
}

#[test]
fn default_channel_name_when_none_given() {
    let w = MeasurementWindow::new_with_channels(10, vec![]);
    assert_eq!(w.channel_names, vec!["signal".to_string()]);
    assert_eq!(w.values.len(), 1);
}

#[test]
fn wrong_width_row_is_ignored() {
    let mut w = MeasurementWindow::new_with_channels(100, vec!["a".into(), "b".into()]);
    w.add_row(1, &[Frequency::from_hz(1)]);
    assert!(w.values[0].is_empty());
    assert!(w.values[1].is_empty());
    assert_eq!(w.last_x, None);
}

#[test]
fn sample_on_window_edge_is_kept() {
    let mut w = single_channel_window();
    w.add_row(0, &[Frequency::from_hz(1)]);
    w.add_row(100, &[Frequency::from_hz(2)]);
    // 0 >= 100 - 100: still inside the window
    assert_eq!(w.values[0].len(), 2);
    w.add_row(101, &[Frequency::from_hz(3)]);
    // 0 < 101 - 100: evicted now
    let collected: Vec<_> = w.values[0].iter().copied().collect();
    assert_eq!(
        collected,
        vec![
            Sample::new(100, Frequency::from_hz(2)),
            Sample::new(101, Frequency::from_hz(3)),
        ]
    );
}

#[test]
fn plot_series_snapshots_all_channels() {
    let mut w = MeasurementWindow::new_with_channels(100, vec!["a".into(), "b".into()]);
    w.add_row(1, &[Frequency::from_hz(10), Frequency::from_hz(20)]);
    w.add_row(2, &[Frequency::from_hz(11), Frequency::from_hz(21)]);

    let series = w.plot_series();
    assert_eq!(series.len(), 2);
    assert_eq!(series[0].0, "a");
    assert_eq!(
        series[0].1,
        vec![
            Sample::new(1, Frequency::from_hz(10)),
            Sample::new(2, Frequency::from_hz(11))
        ]
    );
    assert_eq!(series[1].0, "b");
    assert_eq!(
        series[1].1,
        vec![
            Sample::new(1, Frequency::from_hz(20)),
            Sample::new(2, Frequency::from_hz(21))
        ]
    );
}

#[test]
fn latest_points_per_channel() {
    let mut w = MeasurementWindow::new_with_channels(100, vec!["a".into(), "b".into()]);
    assert_eq!(w.latest_points(), vec![None, None]);
    w.add_row(1, &[Frequency::from_hz(10), Frequency::from_hz(20)]);
    w.add_row(2, &[Frequency::from_hz(11), Frequency::from_hz(21)]);
    assert_eq!(
        w.latest_points(),
        vec![
            Some(Sample::new(2, Frequency::from_hz(11))),
            Some(Sample::new(2, Frequency::from_hz(21))),
        ]
    );
}
