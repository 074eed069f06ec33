use pixelsort::probe::parse_dec_bounded;
use pixelsort::probe::parse_packet_count;
use pixelsort::probe::parse_resolution;
use pixelsort::probe::split_lines_exec;

#[test]
fn resolution_parses_plain_output() {
    let out = b"width=1920\nheight=1080\n".to_vec();
    assert_eq!(parse_resolution(&out), Some((1920, 1080)));
    // A missing final line ending changes nothing.
    let out = b"width=1920\nheight=1080".to_vec();
    assert_eq!(parse_resolution(&out), Some((1920, 1080)));
}

#[test]
fn resolution_parses_crlf_and_spaces() {
    let out = b"width=640\r\nheight= 480 \r\n".to_vec();
    assert_eq!(parse_resolution(&out), Some((640, 480)));
}

#[test]
fn resolution_missing_height_fails() {
    let out = b"width=1920\n".to_vec();
    assert_eq!(parse_resolution(&out), None);
}

#[test]
fn resolution_later_lines_overwrite_earlier_ones() {
    let out = b"width=1\nwidth=2\nheight=3\n".to_vec();
    assert_eq!(parse_resolution(&out), Some((2, 3)));
}

#[test]
fn resolution_bad_later_value_overwrites_with_nothing() {
    let out = b"width=10\nheight=5\nwidth=abc\n".to_vec();
    assert_eq!(parse_resolution(&out), None);
}

#[test]
fn resolution_ignores_unrelated_lines() {
    let out = b"codec=h264\nwidth=100\nnoise\nheight=50\n".to_vec();
    assert_eq!(parse_resolution(&out), Some((100, 50)));
}

#[test]
fn resolution_empty_output_fails() {
    let out = Vec::new();
    assert_eq!(parse_resolution(&out), None);
}

#[test]
fn packet_count_parses_trimmed_decimal() {
    let out = b" 250 \n".to_vec();
    assert_eq!(parse_packet_count(&out), Some(250));
}

#[test]
fn packet_count_accepts_leading_plus() {
    let out = b"+42".to_vec();
    assert_eq!(parse_packet_count(&out), Some(42));
}

#[test]
fn packet_count_rejects_garbage() {
    assert_eq!(parse_packet_count(&b"abc".to_vec()), None);
    assert_eq!(parse_packet_count(&b"".to_vec()), None);
    assert_eq!(parse_packet_count(&b"+".to_vec()), None);
    assert_eq!(parse_packet_count(&b"12x".to_vec()), None);
    assert_eq!(parse_packet_count(&b"-5".to_vec()), None);
}

#[test]
fn packet_count_handles_the_largest_value() {
    assert_eq!(
        parse_packet_count(&b"18446744073709551615".to_vec()),
        Some(u64::MAX)
    );
    assert_eq!(parse_packet_count(&b"18446744073709551616".to_vec()), None);
}

#[test]
fn bounded_parse_respects_the_bound() {
    assert_eq!(parse_dec_bounded(&b"255".to_vec(), 255), Some(255));
    assert_eq!(parse_dec_bounded(&b"300".to_vec(), 255), None);
    assert_eq!(parse_dec_bounded(&b"0".to_vec(), 255), Some(0));
    assert_eq!(parse_dec_bounded(&b"007".to_vec(), 255), Some(7));
}

#[test]
fn line_splitting_matches_text_lines() {
    let parts = split_lines_exec(&b"a\nb\r\nc".to_vec());
    assert_eq!(parts, vec![b"a".to_vec(), b"b".to_vec(), b"c".to_vec()]);
    assert_eq!(split_lines_exec(&Vec::new()), Vec::<Vec<u8>>::new());
    assert_eq!(split_lines_exec(&b"\n".to_vec()), vec![Vec::<u8>::new()]);
    // A carriage return is stripped only as part of a CRLF line ending.
    assert_eq!(split_lines_exec(&b"x\r".to_vec()), vec![b"x\r".to_vec()]);
}
