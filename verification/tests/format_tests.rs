use moviechapterspls::fmt::duration_to_string;
use moviechapterspls::fmt::get_nanos;
use moviechapterspls::fmt::make_path;
use moviechapterspls::fmt::make_title;
use moviechapterspls::fmt::parse_timestamp_to_duration;
use moviechapterspls::fmt::str_to_time;
use moviechapterspls::fmt::substract_str_time;
use moviechapterspls::time::ticks_to_duration;
use moviechapterspls::time::Duration;

#[test]
fn one_tick_serializes_with_nine_fractional_digits() {
    // 1/45000 s is 22222.2... ns; truncated, never rounded, and padded to
    // exactly nine digits: it neither rounds to zero nor spills into the
    // seconds field.
    let d = ticks_to_duration(1);
    assert_eq!(d, Duration { secs: 0, nanos: 22222 });
    assert_eq!(duration_to_string(d), "00:00:00.000022222");
    assert_eq!(get_nanos(d).len(), 9);
}

#[test]
fn tick_conversion_exact_values() {
    assert_eq!(ticks_to_duration(0), Duration { secs: 0, nanos: 0 });
    assert_eq!(ticks_to_duration(45000), Duration { secs: 1, nanos: 0 });
    assert_eq!(ticks_to_duration(45000 * 90 + 22500), Duration { secs: 90, nanos: 500_000_000 });
    // The largest tick count stays within the expected bound.
    let top = ticks_to_duration(u32::MAX);
    assert_eq!(top.secs, 95443);
}

#[test]
fn duration_formatting_is_canonical() {
    assert_eq!(duration_to_string(Duration { secs: 0, nanos: 0 }), "00:00:00.000000000");
    assert_eq!(duration_to_string(Duration { secs: 3661, nanos: 5 }), "01:01:01.000000005");
    assert_eq!(duration_to_string(Duration { secs: 300, nanos: 0 }), "00:05:00.000000000");
    assert_eq!(
        duration_to_string(Duration { secs: 100 * 3600 + 59 * 60 + 59, nanos: 999_999_999 }),
        "100:59:59.999999999"
    );
}

#[test]
fn get_nanos_pads_and_keeps_value() {
    assert_eq!(get_nanos(Duration { secs: 12, nanos: 0 }), "000000000");
    assert_eq!(get_nanos(Duration { secs: 0, nanos: 500_000_000 }), "500000000");
    assert_eq!(get_nanos(Duration { secs: 0, nanos: 42 }), "000000042");
}

#[test]
fn titles_and_paths_are_synthesized() {
    assert_eq!(make_title(1), "Chapter 1");
    assert_eq!(make_title(12), "Chapter 12");
    assert_eq!(make_path(7, &String::from("M2TS")), "00007.m2ts");
    assert_eq!(make_path(65535, &String::from("ac3")), "65535.ac3");
}

#[test]
fn timestamp_parsing_exact_values() {
    assert_eq!(
        parse_timestamp_to_duration(String::from("00:05:00.5")),
        Some(Duration { secs: 300, nanos: 500_000_000 })
    );
    assert_eq!(
        parse_timestamp_to_duration(String::from("01:02:03.000000009")),
        Some(Duration { secs: 3723, nanos: 9 })
    );
    assert_eq!(parse_timestamp_to_duration(String::from("0")), Some(Duration { secs: 0, nanos: 0 }));
    assert_eq!(
        parse_timestamp_to_duration(String::from("00:12:00.0")),
        Some(Duration { secs: 720, nanos: 0 })
    );
}

#[test]
fn timestamp_parsing_rejects_malformed_text() {
    assert_eq!(parse_timestamp_to_duration(String::from("abc")), None);
    assert_eq!(parse_timestamp_to_duration(String::from("1:2:3")), None);
    assert_eq!(parse_timestamp_to_duration(String::from("00:05.5")), None);
    assert_eq!(parse_timestamp_to_duration(String::from("00:0x:00.5")), None);
    assert_eq!(parse_timestamp_to_duration(String::from("00:05:00.0000000001")), None);
    assert_eq!(parse_timestamp_to_duration(String::from("")), None);
}

#[test]
fn subtraction_rebases_and_reformats() {
    let r = substract_str_time(String::from("00:10:00.0"), String::from("00:05:00.0"));
    let (text, d) = r.expect("both parse");
    assert_eq!(text, "00:05:00.000000000");
    assert_eq!(d, Duration { secs: 300, nanos: 0 });
    let clamped = substract_str_time(String::from("00:01:00.0"), String::from("00:02:00.0"));
    let (ctext, cd) = clamped.expect("both parse");
    assert_eq!(ctext, "00:00:00.000000000");
    assert_eq!(cd, Duration { secs: 0, nanos: 0 });
    assert_eq!(substract_str_time(String::from("nope"), String::from("00:00:00.0")), None);
}

#[test]
fn str_to_time_totals_seconds_and_keeps_three_fraction_digits() {
    assert_eq!(str_to_time(String::from("01:00:30.123456")).as_deref(), Some("3630123"));
    assert_eq!(str_to_time(String::from("00:05:00.5")).as_deref(), Some("3005"));
    assert_eq!(str_to_time(String::from("00:00:00.000000000")).as_deref(), Some("0000"));
    assert_eq!(str_to_time(String::from("00:05:00")), None);
}
