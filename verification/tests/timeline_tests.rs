use moviechapterspls::reader::parse_playlist;
use moviechapterspls::reader::ReadError;
use moviechapterspls::time::Duration;
use moviechapterspls::timeline::merge_units;
use moviechapterspls::timeline::serialize;
use moviechapterspls::timeline::M2ts;

const MIN: u32 = 45000 * 60;

/// Assembles a playlist file image: a 20-byte header, the play-item table
/// right after it, the mark table after that.
fn build_playlist(
    version: &[u8; 4],
    items: &[(u16, &str, u32, u32)],
    marks: &[(u8, u16, u32)],
) -> Vec<u8> {
    let mut items_bytes: Vec<u8> = vec![];
    for (id, codec, in_time, out_time) in items {
        let mut rec: Vec<u8> = vec![];
        rec.extend_from_slice(format!("{:05}", id).as_bytes());
        let cb = codec.as_bytes();
        assert!(cb.len() == 4);
        rec.extend_from_slice(cb);
        rec.extend_from_slice(&[0, 0, 0]);
        rec.extend_from_slice(&in_time.to_be_bytes());
        rec.extend_from_slice(&out_time.to_be_bytes());
        items_bytes.extend_from_slice(&20u16.to_be_bytes());
        items_bytes.extend_from_slice(&rec);
    }
    let mut play_sec: Vec<u8> = vec![];
    play_sec.extend_from_slice(&0u32.to_be_bytes());
    play_sec.extend_from_slice(&0u16.to_be_bytes());
    play_sec.extend_from_slice(&(items.len() as u16).to_be_bytes());
    play_sec.extend_from_slice(&0u16.to_be_bytes());
    play_sec.extend_from_slice(&items_bytes);
    let mut mark_sec: Vec<u8> = vec![];
    mark_sec.extend_from_slice(&0u32.to_be_bytes());
    mark_sec.extend_from_slice(&(marks.len() as u16).to_be_bytes());
    for (ty, seg, ts) in marks {
        mark_sec.push(0);
        mark_sec.push(*ty);
        mark_sec.extend_from_slice(&seg.to_be_bytes());
        mark_sec.extend_from_slice(&ts.to_be_bytes());
        mark_sec.extend_from_slice(&[0, 0, 0, 0, 0, 0]);
    }
    let mut b: Vec<u8> = vec![];
    b.extend_from_slice(b"MPLS");
    b.extend_from_slice(version);
    b.extend_from_slice(&20u32.to_be_bytes());
    b.extend_from_slice(&(20 + play_sec.len() as u32).to_be_bytes());
    b.extend_from_slice(&0u32.to_be_bytes());
    b.extend_from_slice(&play_sec);
    b.extend_from_slice(&mark_sec);
    b
}

fn units_of(bytes: &Vec<u8>, merge: Option<(u16, u16)>, only: Option<(Duration, Duration)>) -> Vec<M2ts> {
    let (units, header_ok) = serialize(bytes, merge, only).expect("well-formed playlist");
    assert!(header_ok);
    units
}

#[test]
fn round_trip_unit_and_interval_counts() {
    // Two play items, three strictly increasing chapter marks each: two
    // units, each with three intervals (two boundaries plus the final
    // segment-end interval).
    let bytes = build_playlist(
        b"0100",
        &[(1, "M2TS", 0, 3 * MIN), (2, "M2TS", 0, 4 * MIN)],
        &[
            (1, 0, 0),
            (1, 0, MIN),
            (1, 0, 2 * MIN),
            (1, 1, 0),
            (1, 1, MIN),
            (1, 1, 3 * MIN),
        ],
    );
    let units = units_of(&bytes, None, None);
    assert_eq!(units.len(), 2);
    assert_eq!(units[0].id, 1);
    assert_eq!(units[0].path, "00001.m2ts");
    assert_eq!(units[0].chapters.len(), 3);
    assert_eq!(units[1].id, 2);
    assert_eq!(units[1].chapters.len(), 3);
    let titles: Vec<&str> = units[0].chapters.iter().map(|c| c.title.as_str()).collect();
    assert_eq!(titles, vec!["Chapter 1", "Chapter 2", "Chapter 3"]);
    assert_eq!(units[0].chapters[0].start, "00:00:00.000000000");
    assert_eq!(units[0].chapters[0].end, "00:01:00.000000000");
    assert_eq!(units[0].chapters[2].start, "00:02:00.000000000");
    assert_eq!(units[0].chapters[2].end, "00:03:00.000000000");
    assert_eq!(units[1].chapters[2].end, "00:04:00.000000000");
}

#[test]
fn reader_idempotent_on_same_bytes() {
    let bytes = build_playlist(
        b"0200",
        &[(7, "M2TS", 100, 2 * MIN)],
        &[(1, 0, 100), (2, 0, 500), (1, 0, MIN)],
    );
    let p1 = parse_playlist(&bytes).expect("parses");
    let p2 = parse_playlist(&bytes).expect("parses");
    assert_eq!(p1.items.len(), p2.items.len());
    for (a, b) in p1.items.iter().zip(p2.items.iter()) {
        assert_eq!(a.id, b.id);
        assert_eq!(a.codec, b.codec);
        assert_eq!(a.in_time, b.in_time);
        assert_eq!(a.out_time, b.out_time);
    }
    assert_eq!(p1.marks, p2.marks);
    assert_eq!(p1.header_ok, p2.header_ok);
}

#[test]
fn reader_extracts_fields() {
    let bytes = build_playlist(
        b"0300",
        &[(123, "M2TS", 77, 2 * MIN)],
        &[(1, 0, 77), (2, 0, 500), (1, 0, MIN)],
    );
    let p = parse_playlist(&bytes).expect("parses");
    assert!(p.header_ok);
    assert_eq!(p.items.len(), 1);
    assert_eq!(p.items[0].id, 123);
    assert_eq!(p.items[0].codec, "M2TS");
    assert_eq!(p.items[0].in_time, 77);
    assert_eq!(p.items[0].out_time, 2 * MIN);
    assert_eq!(p.marks.len(), 3);
    assert_eq!(p.marks[1].mark_type, 2);
    assert_eq!(p.marks[1].segment_ref, 0);
    assert_eq!(p.marks[1].timestamp, 500);
}

#[test]
fn bad_version_is_warning_not_abort() {
    let bytes = build_playlist(b"0400", &[(1, "M2TS", 0, 2 * MIN)], &[(1, 0, 0), (1, 0, MIN)]);
    let p = parse_playlist(&bytes).expect("still parses");
    assert!(!p.header_ok);
    assert_eq!(p.items.len(), 1);
    let (units, header_ok) = serialize(&bytes, None, None).expect("still serializes");
    assert!(!header_ok);
    assert_eq!(units.len(), 1);
}

#[test]
fn offset_invariant_first_chapter_starts_at_zero() {
    // The first mark lags behind the in-time: the offset rule anchors the
    // first chapter at zero anyway.
    let bytes = build_playlist(
        b"0100",
        &[(1, "M2TS", 900, 3 * MIN)],
        &[(1, 0, 450), (1, 0, MIN), (1, 0, 2 * MIN)],
    );
    let units = units_of(&bytes, None, None);
    assert_eq!(units[0].chapters[0].start, "00:00:00.000000000");
    assert_eq!(units[0].chapters[0].start_duration, Duration { secs: 0, nanos: 0 });
}

#[test]
fn single_chapter_segment_discarded_without_merge() {
    // Segment 2 yields exactly one derived chapter: absent without merge.
    let bytes = build_playlist(
        b"0100",
        &[(1, "M2TS", 0, 2 * MIN), (2, "M2TS", 0, 3 * MIN)],
        &[(1, 0, 0), (1, 0, MIN), (1, 1, 0)],
    );
    let units = units_of(&bytes, None, None);
    assert_eq!(units.len(), 1);
    assert_eq!(units[0].id, 1);
}

#[test]
fn single_chapter_segment_kept_under_merge() {
    // The same single-chapter segment is present when a merge range that
    // includes its id is active: its one interval closes the merged list.
    let bytes = build_playlist(
        b"0100",
        &[(1, "M2TS", 0, 2 * MIN), (2, "M2TS", 0, 3 * MIN)],
        &[(1, 0, 0), (1, 0, MIN), (1, 1, 0)],
    );
    let units = units_of(&bytes, Some((1, 2)), None);
    assert_eq!(units.len(), 1);
    assert_eq!(units[0].id, 2);
    assert_eq!(units[0].path, "00002.m2ts");
    assert_eq!(units[0].chapters.len(), 3);
    // The re-emitted single chapter spans the whole second segment,
    // re-based by the first segment's end.
    assert_eq!(units[0].chapters[2].title, "Chapter 3");
    assert_eq!(units[0].chapters[2].start, "00:02:00.000000000");
    assert_eq!(units[0].chapters[2].end, "00:05:00.000000000");
}

#[test]
fn merge_additivity_two_segments() {
    // Two segments of two chapters each: the first re-emitted chapter of
    // the second starts exactly at the first segment's last chapter end.
    let bytes = build_playlist(
        b"0100",
        &[(1, "M2TS", 0, 2 * MIN), (2, "M2TS", 0, 90 * 45000)],
        &[(1, 0, 0), (1, 0, MIN), (1, 1, 0), (1, 1, 30 * 45000)],
    );
    let units = units_of(&bytes, Some((1, 2)), None);
    assert_eq!(units.len(), 1);
    let chs = &units[0].chapters;
    assert_eq!(chs.len(), 4);
    assert_eq!(chs[1].end, "00:02:00.000000000");
    assert_eq!(chs[2].title, "Chapter 3");
    assert_eq!(chs[2].start, "00:02:00.000000000");
    assert_eq!(chs[2].start_duration, chs[1].end_duration);
    assert_eq!(chs[2].end, "00:02:30.000000000");
    assert_eq!(chs[3].start, "00:02:30.000000000");
    assert_eq!(chs[3].end, "00:03:30.000000000");
}

#[test]
fn merge_range_never_closed_yields_nothing() {
    let bytes = build_playlist(
        b"0100",
        &[(1, "M2TS", 0, 2 * MIN), (2, "M2TS", 0, 2 * MIN)],
        &[(1, 0, 0), (1, 0, MIN), (1, 1, 0), (1, 1, MIN)],
    );
    let units = units_of(&bytes, Some((1, 99)), None);
    assert_eq!(units.len(), 0);
}

#[test]
fn merge_with_equal_ids_never_closes() {
    // The unit that opens the recording is never tested against the
    // closing id, so a range of one id yields nothing.
    let bytes = build_playlist(
        b"0100",
        &[(1, "M2TS", 0, 2 * MIN)],
        &[(1, 0, 0), (1, 0, MIN)],
    );
    let units = units_of(&bytes, Some((1, 1)), None);
    assert_eq!(units.len(), 0);
}

#[test]
fn merge_units_direct_additivity() {
    // The merge over already-built units, without a file in between.
    let bytes = build_playlist(
        b"0100",
        &[(4, "M2TS", 0, 2 * MIN), (9, "M2TS", 0, MIN)],
        &[(1, 0, 0), (1, 0, MIN), (1, 1, 0), (1, 1, 30 * 45000)],
    );
    let units = units_of(&bytes, None, None);
    assert_eq!(units.len(), 2);
    let merged = merge_units(units, 4, 9);
    assert_eq!(merged.len(), 1);
    assert_eq!(merged[0].id, 9);
    assert_eq!(merged[0].chapters.len(), 4);
    assert_eq!(merged[0].chapters[2].start, "00:02:00.000000000");
}

#[test]
fn only_range_clips_and_rebases() {
    // Chapters [00:00–05:00, 05:00–10:00, 10:00–15:00] with the window
    // (00:05:00, 00:12:00): the result is re-zeroed to the lower bound and
    // clipped at the upper one.
    let bytes = build_playlist(
        b"0100",
        &[(1, "M2TS", 0, 15 * MIN)],
        &[(1, 0, 0), (1, 0, 5 * MIN), (1, 0, 10 * MIN)],
    );
    let from = Duration { secs: 300, nanos: 0 };
    let to = Duration { secs: 720, nanos: 0 };
    let units = units_of(&bytes, None, Some((from, to)));
    assert_eq!(units.len(), 1);
    let chs = &units[0].chapters;
    assert_eq!(chs.len(), 2);
    assert_eq!(chs[0].start, "00:00:00.000000000");
    assert_eq!(chs[0].end, "00:05:00.000000000");
    assert_eq!(chs[1].start, "00:05:00.000000000");
    assert_eq!(chs[1].end, "00:07:00.000000000");
}

#[test]
fn only_range_after_segment_end_yields_nothing() {
    // The final interval ends exactly at the window's lower bound: the
    // whole window lies past the segment, so nothing comes out.
    let bytes = build_playlist(
        b"0100",
        &[(1, "M2TS", 0, 10 * MIN)],
        &[(1, 0, 0), (1, 0, 5 * MIN)],
    );
    let from = Duration { secs: 600, nanos: 0 };
    let to = Duration { secs: 720, nanos: 0 };
    let units = units_of(&bytes, None, Some((from, to)));
    assert_eq!(units.len(), 0);
}

#[test]
fn only_range_single_interval_is_discarded() {
    // A window that clips to a single interval falls to the retention
    // rule, like any other one-chapter list without a merge.
    let bytes = build_playlist(
        b"0100",
        &[(1, "M2TS", 0, 15 * MIN)],
        &[(1, 0, 0), (1, 0, 5 * MIN), (1, 0, 10 * MIN)],
    );
    let from = Duration { secs: 0, nanos: 0 };
    let to = Duration { secs: 300, nanos: 0 };
    let units = units_of(&bytes, None, Some((from, to)));
    assert_eq!(units.len(), 0);
}

#[test]
fn segment_without_marks_is_skipped() {
    let bytes = build_playlist(
        b"0100",
        &[(1, "M2TS", 0, 2 * MIN), (2, "M2TS", 0, 2 * MIN)],
        &[(1, 1, 0), (1, 1, MIN)],
    );
    let units = units_of(&bytes, None, None);
    assert_eq!(units.len(), 1);
    assert_eq!(units[0].id, 2);
}

#[test]
fn non_chapter_marks_are_ignored() {
    let bytes = build_playlist(
        b"0100",
        &[(1, "M2TS", 0, 2 * MIN)],
        &[(1, 0, 0), (2, 0, 30 * 45000), (1, 0, MIN), (3, 0, 90 * 45000)],
    );
    let units = units_of(&bytes, None, None);
    assert_eq!(units.len(), 1);
    assert_eq!(units[0].chapters.len(), 2);
}

#[test]
fn truncated_file_is_fatal() {
    let bytes = build_playlist(b"0100", &[(1, "M2TS", 0, 2 * MIN)], &[(1, 0, 0), (1, 0, MIN)]);
    let cut = bytes[..bytes.len() - 5].to_vec();
    assert!(matches!(parse_playlist(&cut), Err(ReadError::Truncated)));
    let tiny = vec![0u8; 10];
    assert!(matches!(parse_playlist(&tiny), Err(ReadError::Truncated)));
}

#[test]
fn bad_clip_id_is_rejected() {
    let mut bytes = build_playlist(b"0100", &[(1, "M2TS", 0, 2 * MIN)], &[(1, 0, 0)]);
    // The clip id field starts right after the record's 2-byte length
    // prefix, at offset 20 (header) + 10 (table head) + 2.
    bytes[32] = b'A';
    assert!(matches!(parse_playlist(&bytes), Err(ReadError::InvalidClipId)));
    // A numeric id past the 16-bit range is rejected too.
    let mut big = build_playlist(b"0100", &[(1, "M2TS", 0, 2 * MIN)], &[(1, 0, 0)]);
    for (i, d) in b"99999".iter().enumerate() {
        big[32 + i] = *d;
    }
    assert!(matches!(parse_playlist(&big), Err(ReadError::InvalidClipId)));
}

#[test]
fn short_record_length_is_rejected() {
    let mut bytes = build_playlist(b"0100", &[(1, "M2TS", 0, 2 * MIN)], &[(1, 0, 0)]);
    // The record's length prefix sits at offset 30; declare fewer bytes
    // than the fixed fields need.
    bytes[30] = 0;
    bytes[31] = 19;
    assert!(matches!(parse_playlist(&bytes), Err(ReadError::InvalidRecordLength)));
}

#[test]
fn record_tail_bytes_are_skipped() {
    // A record longer than its fixed fields: the tail is skip-consumed and
    // the next record still parses.
    let mut items_bytes: Vec<u8> = vec![];
    let mut rec = |id: &str, tail: usize, v: &mut Vec<u8>| {
        v.extend_from_slice(&((20 + tail) as u16).to_be_bytes());
        v.extend_from_slice(id.as_bytes());
        v.extend_from_slice(b"M2TS");
        v.extend_from_slice(&[0, 0, 0]);
        v.extend_from_slice(&0u32.to_be_bytes());
        v.extend_from_slice(&(2u32 * MIN).to_be_bytes());
        v.extend_from_slice(&vec![0xEE; tail]);
    };
    rec("00001", 13, &mut items_bytes);
    rec("00002", 0, &mut items_bytes);
    let mut b: Vec<u8> = vec![];
    b.extend_from_slice(b"MPLS0100");
    b.extend_from_slice(&20u32.to_be_bytes());
    let mark_start = 20 + 10 + items_bytes.len() as u32;
    b.extend_from_slice(&mark_start.to_be_bytes());
    b.extend_from_slice(&0u32.to_be_bytes());
    b.extend_from_slice(&0u32.to_be_bytes());
    b.extend_from_slice(&0u16.to_be_bytes());
    b.extend_from_slice(&2u16.to_be_bytes());
    b.extend_from_slice(&0u16.to_be_bytes());
    b.extend_from_slice(&items_bytes);
    b.extend_from_slice(&0u32.to_be_bytes());
    b.extend_from_slice(&0u16.to_be_bytes());
    let p = parse_playlist(&b).expect("parses");
    assert_eq!(p.items.len(), 2);
    assert_eq!(p.items[0].id, 1);
    assert_eq!(p.items[1].id, 2);
}

#[test]
fn codec_tag_nul_padding_is_trimmed() {
    // A three-letter codec tag arrives NUL-padded on the left.
    let bytes = build_playlist(b"0100", &[(1, "\0AC3", 0, 2 * MIN)], &[(1, 0, 0), (1, 0, MIN)]);
    let p = parse_playlist(&bytes).expect("parses");
    assert_eq!(p.items[0].codec, "AC3");
    let units = units_of(&bytes, None, None);
    assert_eq!(units[0].path, "00001.ac3");
}
