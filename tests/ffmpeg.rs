use high_cut::ffmpeg::{
    extract_timestamp, fade_out_start, parse_duration, parse_seconds, parse_silence_output,
    SilenceSegment,
};

#[test]
fn seconds_are_read_as_microseconds() {
    assert_eq!(parse_seconds(b"5"), Some(5_000_000));
    assert_eq!(parse_seconds(b"5.00454"), Some(5_004_540));
    assert_eq!(parse_seconds(b"12.3456789"), Some(12_345_678));
    assert_eq!(parse_seconds(b"-0.00133"), Some(-1_330));
    assert_eq!(parse_seconds(b".5"), Some(500_000));
    assert_eq!(parse_seconds(b"7."), Some(7_000_000));
    assert_eq!(parse_seconds(b"0"), Some(0));
    assert_eq!(parse_seconds(b"+5"), Some(5_000_000));
}

#[test]
fn exponent_forms_are_read() {
    assert_eq!(parse_seconds(b"1e-05"), Some(10));
    assert_eq!(parse_seconds(b"2.26e-05"), Some(22));
    assert_eq!(parse_seconds(b"-2.26E-05"), Some(-22));
    assert_eq!(parse_seconds(b"1.5e2"), Some(150_000_000));
    assert_eq!(parse_seconds(b"1.5e+2"), Some(150_000_000));
    assert_eq!(parse_seconds(b"3e-7"), Some(0));
    assert_eq!(parse_seconds(b"0e99999999999999999999999"), Some(0));
    assert_eq!(parse_seconds(b"1e-99999999999999999999999"), Some(0));
    assert_eq!(parse_seconds(b"1e99999999999999999999999"), None);
    assert_eq!(parse_seconds(b"1e10"), Some(10_000_000_000_000_000));
    assert_eq!(parse_seconds(b"1e11"), None);
}

#[test]
fn malformed_seconds_are_rejected() {
    assert_eq!(parse_seconds(b""), None);
    assert_eq!(parse_seconds(b"-"), None);
    assert_eq!(parse_seconds(b"."), None);
    assert_eq!(parse_seconds(b"1.2.3"), None);
    assert_eq!(parse_seconds(b"12a"), None);
    assert_eq!(parse_seconds(b" 1"), None);
    assert_eq!(parse_seconds(b"N/A"), None);
    assert_eq!(parse_seconds(b"1e"), None);
    assert_eq!(parse_seconds(b"1e+"), None);
    assert_eq!(parse_seconds(b"e5"), None);
    assert_eq!(parse_seconds(b"+-1"), None);
    assert_eq!(parse_seconds(b"inf"), None);
    assert_eq!(parse_seconds(b"nan"), None);
}

#[test]
fn seconds_beyond_the_limit_are_rejected() {
    assert_eq!(parse_seconds(b"10000000000"), Some(10_000_000_000_000_000));
    assert_eq!(parse_seconds(b"10000000000.000001"), None);
    assert_eq!(parse_seconds(b"99999999999999999999999"), None);
    assert_eq!(parse_seconds(b"-10000000001"), None);
}

#[test]
fn timestamp_follows_the_tag() {
    assert_eq!(
        extract_timestamp(b"[silencedetect @ 0x7f8] silence_start: 5.00454", b"silence_start:"),
        Some(5_004_540)
    );
    assert_eq!(
        extract_timestamp(
            b"[silencedetect @ 0x7f8] silence_end: 10.5 | silence_duration: 5.49",
            b"silence_end:"
        ),
        Some(10_500_000)
    );
    assert_eq!(
        extract_timestamp(b"[silencedetect @ 0x7f8] silence_start: 2.26e-05", b"silence_start:"),
        Some(22)
    );
    assert_eq!(extract_timestamp(b"silence_start:", b"silence_start:"), None);
    assert_eq!(extract_timestamp(b"silence_start 5", b"silence_start:"), None);
}

#[test]
fn report_lines_pair_into_silences() {
    let report = b"ffmpeg version x\n\
[silencedetect @ 0x1] silence_start: 5.0\r\n\
frame=  10 fps=0.0 q=-0.0 size=N/A\n\
[silencedetect @ 0x1] silence_end: 10.0 | silence_duration: 5.0\n\
[silencedetect @ 0x1] silence_end: 11 | silence_duration: 6\n\
[silencedetect @ 0x1] silence_start: 20.5\n\
[silencedetect @ 0x1] silence_start: bad\n\
[silencedetect @ 0x1] silence_end: 25.25 | silence_duration: 4.75\n\
[silencedetect @ 0x1] silence_start: 30\n";
    let silences = parse_silence_output(report);
    assert_eq!(
        silences,
        vec![
            SilenceSegment { start: 5_000_000, end: 10_000_000 },
            SilenceSegment { start: 20_500_000, end: 25_250_000 },
        ]
    );
    assert!(parse_silence_output(b"").is_empty());
}

#[test]
fn silence_end_is_not_its_duration() {
    let report = b"[silencedetect @ 0x1] silence_start: 5.0\n\
[silencedetect @ 0x1] silence_end: 10.0 | silence_duration: 5.0";
    assert_eq!(
        parse_silence_output(report),
        vec![SilenceSegment { start: 5_000_000, end: 10_000_000 }]
    );
}

#[test]
fn duration_report_is_trimmed() {
    assert_eq!(parse_duration(b"  123.456000\n"), Some(123_456_000));
    assert_eq!(parse_duration(b"N/A\n"), None);
}

#[test]
fn fade_out_starts_before_the_end() {
    assert_eq!(fade_out_start(4_000_000), 3_950_000);
    assert_eq!(fade_out_start(50_000), 0);
    assert_eq!(fade_out_start(10_000), 0);
}
