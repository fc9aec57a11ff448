use freq_plotter::convert::{ConvertConfig, Frequency};
use freq_plotter::frame::extract_line;
use freq_plotter::ingest::handle_line;
use freq_plotter::window::{MeasurementWindow, Sample};

fn two_channel_window() -> MeasurementWindow {
    MeasurementWindow::new_with_channels(
        10_000,
        vec!["freq_coarse".to_string(), "freq_tdl".to_string()],
    )
}

fn cfg() -> ConvertConfig {
    ConvertConfig {
        reference_clock_hz: 200_000_000,
        fine_min: 0,
        fine_max: 21,
        fine_enabled: true,
    }
}

#[test]
fn extracts_line_and_keeps_rest() {
    let mut buf = b"R=1,2\r\nrest".to_vec();
    let line = extract_line(&mut buf);
    assert_eq!(line, Some(b"R=1,2".to_vec()));
    assert_eq!(buf, b"rest".to_vec());
}

#[test]
fn partial_line_stays_buffered() {
    let mut buf = b"R=1,2".to_vec();
    assert_eq!(extract_line(&mut buf), None);
    assert_eq!(buf, b"R=1,2".to_vec());
}

#[test]
fn lines_come_out_in_order() {
    let mut buf = b" a \nb\n".to_vec();
    assert_eq!(extract_line(&mut buf), Some(b"a".to_vec()));
    assert_eq!(extract_line(&mut buf), Some(b"b".to_vec()));
    assert_eq!(extract_line(&mut buf), None);
    assert!(buf.is_empty());
}

#[test]
fn blank_line_is_empty() {
    let mut buf = b"\n".to_vec();
    assert_eq!(extract_line(&mut buf), Some(Vec::new()));
    assert!(buf.is_empty());
}

#[test]
fn line_flows_into_buffer() {
    let mut w = two_channel_window();
    handle_line(&mut w, b"R=1F,A,5", 7, &cfg());
    assert_eq!(w.values[0].len(), 1);
    assert_eq!(w.values[1].len(), 1);
    // coarse: 31 * 200e6 / 10; fine: 31 * 200e6 * 22 / (10 * 22 + 5)
    assert_eq!(
        w.values[0][0],
        Sample::new(
            7,
            Frequency {
                num: 31 * 200_000_000,
                den: 10
            }
        )
    );
    assert_eq!(
        w.values[1][0],
        Sample::new(
            7,
            Frequency {
                num: 31 * 200_000_000 * 22,
                den: 10 * 22 + 5
            }
        )
    );
}

#[test]
fn degenerate_record_never_buffers() {
    let mut w = two_channel_window();
    handle_line(&mut w, b"R=0,A", 1, &cfg());
    handle_line(&mut w, b"R=1F,0,5", 2, &cfg());
    assert!(w.values[0].is_empty());
    assert!(w.values[1].is_empty());
    assert_eq!(w.last_x, None);
}

#[test]
fn malformed_line_never_buffers() {
    let mut w = two_channel_window();
    handle_line(&mut w, b"hello", 1, &cfg());
    handle_line(&mut w, b"R=ZZ,A", 2, &cfg());
    assert!(w.values[0].is_empty());
    assert!(w.values[1].is_empty());
}

#[test]
fn channel_width_mismatch_never_buffers() {
    let mut w = two_channel_window();
    let coarse_only = ConvertConfig {
        fine_enabled: false,
        ..cfg()
    };
    handle_line(&mut w, b"R=1F,A", 1, &coarse_only);
    assert!(w.values[0].is_empty());
    assert!(w.values[1].is_empty());
}

#[test]
fn split_reads_reassemble_lines() {
    let mut w = two_channel_window();
    let mut buf: Vec<u8> = Vec::new();
    let chunks: [&[u8]; 3] = [b"R=1F", b",A,5\nR=", b"20,A\n"];
    let mut t: u64 = 0;
    for chunk in chunks {
        buf.extend_from_slice(chunk);
        while let Some(line) = extract_line(&mut buf) {
            t += 1;
            handle_line(&mut w, &line, t, &cfg());
        }
    }
    assert_eq!(w.values[0].len(), 2);
    assert_eq!(w.values[0][0].t, 1);
    assert_eq!(w.values[0][1].t, 2);
    assert_eq!(w.values[0][1].v.num, 32 * 200_000_000);
}
