use vidcompress::invoke::{compress_command, decimal_string, interpret_exit, scale_filter_text, transcode_args, Outcome};
use vidcompress::path::PathError;
use vidcompress::scale::{parse_scale, scaled, Scale};

#[test]
fn scale_parses_decimals() {
    let s = parse_scale("0.75").unwrap();
    assert_eq!((s.num(), s.den()), (75, 100));
    assert_eq!(s.text(), "0.75");
    let s = parse_scale("2").unwrap();
    assert_eq!((s.num(), s.den()), (2, 1));
    let s = parse_scale("1.5").unwrap();
    assert_eq!((s.num(), s.den()), (15, 10));
    let s = parse_scale("0.69").unwrap();
    assert_eq!((s.num(), s.den()), (69, 100));
}

#[test]
fn scale_refuses_bad_text() {
    for t in ["", ".5", "5.", "0", "0.000", "abc", "1.2.3", "-1", "1e3", "1234567890123456789", "0.1234567890123456789"] {
        assert!(parse_scale(t).is_none(), "{}", t);
    }
    assert!(parse_scale("123456789012345678").is_some());
}

#[test]
fn scaled_dimensions_are_even() {
    let s = parse_scale("0.75").unwrap();
    assert_eq!(scaled(1920, &s), 1440);
    assert_eq!(scaled(1080, &s), 810);
    let half = parse_scale("0.5").unwrap();
    assert_eq!(scaled(1081, &half), 540);
    let odd = parse_scale("0.69").unwrap();
    for d in 1..2000u64 {
        let r = scaled(d, &odd);
        assert_eq!(r % 2, 0);
        assert!(r * 100 <= (d as u128) * 69);
    }
    let big = parse_scale("3").unwrap();
    assert_eq!(scaled(u64::MAX, &big), 3 * (u64::MAX as u128) - 1);
}

#[test]
fn standard_scale_is_three_quarters() {
    let s = Scale::standard();
    assert_eq!((s.num(), s.den()), (75, 100));
    assert_eq!(s.text(), "0.75");
}

#[test]
fn decimal_numerals() {
    assert_eq!(decimal_string(0), "0");
    assert_eq!(decimal_string(7), "7");
    assert_eq!(decimal_string(23), "23");
    assert_eq!(decimal_string(51), "51");
    assert_eq!(decimal_string(100), "100");
    assert_eq!(decimal_string(255), "255");
}

#[test]
fn filter_truncates_to_even() {
    let s = parse_scale("0.5").unwrap();
    assert_eq!(scale_filter_text(&s), "scale=trunc(iw*0.5/2)*2:trunc(ih*0.5/2)*2");
}

#[test]
fn command_line_has_fixed_shape() {
    let s = parse_scale("0.75").unwrap();
    let args = transcode_args("in.mov", "in_compressed.mp4", 23, &s);
    let expected = vec![
        "ffmpeg", "-i", "in.mov", "-vcodec", "libx264", "-preset", "ultrafast", "-crf", "23", "-vf",
        "scale=trunc(iw*0.75/2)*2:trunc(ih*0.75/2)*2", "in_compressed.mp4", "-y",
    ];
    assert_eq!(args, expected);
}

#[test]
fn command_for_input_derives_output() {
    let s = parse_scale("0.75").unwrap();
    let args = compress_command("d/clip.mov", "mp4", 0, &s).unwrap();
    assert_eq!(args[2], "d/clip.mov");
    assert_eq!(args[8], "0");
    assert_eq!(args[11], "d/clip_compressed.mp4");
    assert_eq!(compress_command("d/", "mp4", 0, &s), Err(PathError::InvalidPath));
}

#[test]
fn exit_status_decides_outcome() {
    assert_eq!(interpret_exit(true, "noise".to_string()), Outcome::Success);
    assert_eq!(interpret_exit(false, "bad input".to_string()), Outcome::ToolFailed("bad input".to_string()));
    assert_eq!(interpret_exit(false, String::new()), Outcome::ToolFailed(String::new()));
    assert!(interpret_exit(true, String::new()).succeeded());
    assert!(!interpret_exit(false, String::new()).succeeded());
}
