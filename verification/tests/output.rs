use scuisei_rs::cli::OutputFormat;
use scuisei_rs::formatter::{render, ScxvidPassFormatter};
use scuisei_rs::{write_agi, write_frames_csv, write_pass_log};

fn text(bytes: Vec<u8>) -> String {
    String::from_utf8(bytes).expect("output should be UTF-8")
}

#[test]
fn test_frames_output() {
    let mut out = Vec::new();
    write_frames_csv(&mut out, &[0, 1, 2]);
    assert_eq!(text(out), "0,1,2\n");
}

#[test]
fn test_default_output_is_agi() {
    let out = render(OutputFormat::Agi, &[0, 1, 2], &[], "0.1.0");
    assert_eq!(
        text(out),
        "# keyframe format v1\nfps 0\n\n0 I -1\n1 I -1\n2 I -1\n"
    );
}

#[test]
fn test_scxvid_output_compatibility() {
    let version = "0.1.0";
    let out = text(render(OutputFormat::Xvid, &[], &[true, false, false], version));
    let lines: Vec<&str> = out.lines().collect();

    assert_eq!(
        lines.len(),
        6,
        "expected 2 header lines + spacer + 3 frame decisions"
    );
    assert_eq!(
        lines[0],
        &format!("# XviD 2pass stat file (core version scuisei-rs {version})")
    );
    assert_eq!(lines[1], "# Please do not modify this file");
    assert_eq!(lines[2], "");
    assert_eq!(lines[3], "i");
    assert_eq!(lines[4], "p");
    assert_eq!(lines[5], "p");
}

#[test]
fn outputs_are_appended() {
    let mut out = b"before ".to_vec();
    write_frames_csv(&mut out, &[]);
    write_agi(&mut out, &[]);
    assert_eq!(text(out), "before \n# keyframe format v1\nfps 0\n\n");
}

#[test]
fn large_indices_are_written_in_full() {
    let mut out = Vec::new();
    write_frames_csv(&mut out, &[0, 9, 10, 1_234_567_890, usize::MAX]);
    assert_eq!(text(out), format!("0,9,10,1234567890,{}\n", usize::MAX));
    assert_eq!(
        text(render(OutputFormat::Frames, &[7, 4096], &[], "")),
        "7,4096\n"
    );
}

#[test]
fn keyframes_can_be_read_back() {
    let keyframes: Vec<usize> = vec![0, 12, 100, 99_999];
    let mut csv = Vec::new();
    write_frames_csv(&mut csv, &keyframes);
    let read: Vec<usize> =
        text(csv).trim_end().split(',').map(|part| part.parse().expect("a number")).collect();
    assert_eq!(read, keyframes);

    let mut agi = Vec::new();
    write_agi(&mut agi, &keyframes);
    let read: Vec<usize> = text(agi)
        .lines()
        .skip(3)
        .map(|line| line.split(' ').next().expect("a field").parse().expect("a number"))
        .collect();
    assert_eq!(read, keyframes);
}

#[test]
fn first_line_of_a_pass_log_is_a_cut() {
    let mut out = Vec::new();
    write_pass_log(&mut out, &[false, true, false], "9");
    assert!(text(out).ends_with("\n\ni\ni\np\n"));
}

#[test]
fn formatter_writes_its_header_once() {
    let mut formatter = ScxvidPassFormatter::new("1.2.3");
    formatter.write_first_frame();
    formatter.write_frame(false);
    formatter.write_frame(true);
    assert_eq!(
        text(formatter.into_bytes()),
        "# XviD 2pass stat file (core version scuisei-rs 1.2.3)\n\
         # Please do not modify this file\n\ni\np\ni\n"
    );
}
