use hls_playlist::Duration;
use hls_playlist::MediaPlaylist;
use hls_playlist::MediaSegment;
use hls_playlist::ParseError;

fn dur(d: core::time::Duration) -> Duration {
    Duration { secs: d.as_secs(), nanos: d.subsec_nanos() }
}

const MINIMAL: &str = "#EXTM3U
#EXT-X-VERSION:4
#EXT-X-TARGETDURATION:20
#EXTINF:12.166,
segment_1.ts
#EXT-X-ENDLIST
";

#[test]
fn minimal_playlist_parses() {
    let p = MediaPlaylist::parse_ext_m3u(MINIMAL).expect("minimal playlist should parse");
    assert_eq!(p.version, 4);
    assert_eq!(p.target_duration, dur(core::time::Duration::from_secs(20)));
    assert!(p.ended);
    assert_eq!(p.segments.len(), 1);
    assert_eq!(
        p.segments[0],
        MediaSegment {
            duration: dur(core::time::Duration::from_secs_f32(12.166)),
            url: "segment_1.ts".to_string(),
        }
    );
    assert_eq!(p.discontinuity.len(), 1);
    assert_eq!(p.discontinuity[0].discontinuity_segments, p.segments);
    assert_eq!(
        p.discontinuity[0].discontinuity_duration,
        dur(core::time::Duration::from_secs_f32(12.166))
    );
}

#[test]
fn boundary_between_pairs_makes_two_groups() {
    let text = "#EXTM3U
#EXT-X-VERSION:4
#EXT-X-TARGETDURATION:20
#EXTINF:12.166,
segment_1.ts
#EXT-X-DISCONTINUITY
#EXTINF:13.292,
segment_2.ts
#EXT-X-ENDLIST
";
    let p = MediaPlaylist::parse_ext_m3u(text).expect("two-group playlist should parse");
    assert_eq!(p.segments.len(), 2);
    assert_eq!(p.discontinuity.len(), 2);
    assert_eq!(p.discontinuity[0].discontinuity_segments.len(), 1);
    assert_eq!(p.discontinuity[1].discontinuity_segments.len(), 1);
    assert_eq!(
        p.discontinuity[0].discontinuity_duration,
        p.discontinuity[0].discontinuity_segments[0].duration
    );
    assert_eq!(
        p.discontinuity[1].discontinuity_duration,
        p.discontinuity[1].discontinuity_segments[0].duration
    );
    assert_eq!(p.segments[0].url, "segment_1.ts");
    assert_eq!(p.segments[1].url, "segment_2.ts");
}

#[test]
fn missing_version_is_reported() {
    let text = "#EXTM3U
#EXT-X-TARGETDURATION:20
#EXTINF:12.166,
segment_1.ts
#EXT-X-ENDLIST
";
    let r = MediaPlaylist::parse_ext_m3u(text);
    assert_eq!(r, Err(ParseError::MissingVersion));
}

#[test]
fn malformed_version_is_reported_as_missing() {
    let text = "#EXTM3U
#EXT-X-VERSION:four
#EXT-X-ENDLIST
";
    let r = MediaPlaylist::parse_ext_m3u(text);
    assert_eq!(r, Err(ParseError::MissingVersion));
}

#[test]
fn missing_header_is_reported() {
    let text = "#NOT-A-PLAYLIST
#EXT-X-VERSION:4
#EXTINF:12.166,
segment_1.ts
";
    let r = MediaPlaylist::parse_ext_m3u(text);
    assert_eq!(r, Err(ParseError::MissingHeader));
}

#[test]
fn missing_header_masks_missing_version() {
    // The header check comes first: with neither a header nor a version,
    // the reported error is the missing header.
    let text = "#EXT-X-TARGETDURATION:20
#EXTINF:12.166,
segment_1.ts
";
    let r = MediaPlaylist::parse_ext_m3u(text);
    assert_eq!(r, Err(ParseError::MissingHeader));
}

#[test]
fn empty_input_is_missing_header() {
    assert_eq!(MediaPlaylist::parse_ext_m3u(""), Err(ParseError::MissingHeader));
}

#[test]
fn intervening_line_before_locator_is_skipped() {
    let text = "#EXTM3U
#EXT-X-VERSION:4
#EXTINF:10.000,
#EXT-X-BYTERANGE:1430680@4048392
segment_a.ts
";
    let p = MediaPlaylist::parse_ext_m3u(text).expect("lookahead playlist should parse");
    assert_eq!(p.segments.len(), 1);
    assert_eq!(p.segments[0].url, "segment_a.ts");
    assert_eq!(p.segments[0].duration, dur(core::time::Duration::from_secs_f32(10.000)));
}

#[test]
fn parse_is_idempotent() {
    let a = MediaPlaylist::parse_ext_m3u(BIGGER);
    let b = MediaPlaylist::parse_ext_m3u(BIGGER);
    assert_eq!(a, b);
    let c = MediaPlaylist::parse_ext_m3u("#EXTM3U\n");
    let d = MediaPlaylist::parse_ext_m3u("#EXTM3U\n");
    assert_eq!(c, d);
}

const BIGGER: &str = "#EXTM3U
#EXT-X-VERSION:3
#EXT-X-TARGETDURATION:15
#EXTINF:10.000,
segment_a.ts
#EXTINF:9.500,
segment_b.ts
#EXT-X-DISCONTINUITY
#EXTINF:8.250,
segment_c.ts
#EXT-X-ENDLIST
";

#[test]
fn segment_count_and_order_are_kept() {
    let p = MediaPlaylist::parse_ext_m3u(BIGGER).expect("should parse");
    assert_eq!(p.segments.len(), 3);
    assert_eq!(p.segments[0].url, "segment_a.ts");
    assert_eq!(p.segments[1].url, "segment_b.ts");
    assert_eq!(p.segments[2].url, "segment_c.ts");
}

#[test]
fn group_durations_sum_to_segment_durations() {
    let p = MediaPlaylist::parse_ext_m3u(BIGGER).expect("should parse");
    let group_total: u128 = p.discontinuity.iter().map(|g| g.discontinuity_duration.millis()).sum();
    let seg_total: u128 = p.segments.iter().map(|s| s.duration.millis()).sum();
    assert_eq!(group_total, seg_total);
}

#[test]
fn concatenated_groups_reproduce_segments() {
    let p = MediaPlaylist::parse_ext_m3u(BIGGER).expect("should parse");
    let flattened: Vec<MediaSegment> = p
        .discontinuity
        .iter()
        .flat_map(|g| g.discontinuity_segments.iter().cloned())
        .collect();
    assert_eq!(flattened, p.segments);
}

#[test]
fn ended_tracks_the_end_tag() {
    let with_tag = MediaPlaylist::parse_ext_m3u("#EXTM3U\n#EXT-X-VERSION:3\n#EXT-X-ENDLIST\n")
        .expect("should parse");
    assert!(with_tag.ended);
    let without_tag =
        MediaPlaylist::parse_ext_m3u("#EXTM3U\n#EXT-X-VERSION:3\n").expect("should parse");
    assert!(!without_tag.ended);
}

#[test]
fn end_tag_is_consumed_while_awaiting_locator() {
    // While a locator is awaited, lines without the transport-stream
    // marker are skipped outright, the end-of-list tag included.
    let text = "#EXTM3U
#EXT-X-VERSION:3
#EXTINF:5.000,
#EXT-X-ENDLIST
segment_a.ts
";
    let p = MediaPlaylist::parse_ext_m3u(text).expect("should parse");
    assert!(!p.ended);
    assert_eq!(p.segments.len(), 1);
    assert_eq!(p.segments[0].url, "segment_a.ts");
}

#[test]
fn malformed_target_duration_keeps_previous_value() {
    let text = "#EXTM3U
#EXT-X-VERSION:3
#EXT-X-TARGETDURATION:soon
";
    let p = MediaPlaylist::parse_ext_m3u(text).expect("should parse");
    assert_eq!(p.target_duration, Duration { secs: 0, nanos: 0 });
}

#[test]
fn target_duration_payload_is_stripped_to_digits() {
    let text = "#EXTM3U
#EXT-X-VERSION:3
#EXT-X-TARGETDURATION:20 seconds
";
    let p = MediaPlaylist::parse_ext_m3u(text).expect("should parse");
    assert_eq!(p.target_duration, dur(core::time::Duration::from_secs(20)));
}

#[test]
fn malformed_segment_duration_keeps_previous_value() {
    let text = "#EXTM3U
#EXT-X-VERSION:3
#EXTINF:2.500,
segment_a.ts
#EXTINF:not.a.number,
segment_b.ts
";
    let p = MediaPlaylist::parse_ext_m3u(text).expect("should parse");
    assert_eq!(p.segments.len(), 2);
    assert_eq!(p.segments[0].duration, dur(core::time::Duration::from_secs_f32(2.5)));
    assert_eq!(p.segments[1].duration, dur(core::time::Duration::from_secs_f32(2.5)));
}

#[test]
fn later_malformed_version_clears_an_earlier_one() {
    // A version tag whose payload does not parse leaves the version
    // absent, even after an earlier well-formed one.
    let text = "#EXTM3U
#EXT-X-VERSION:4
#EXT-X-VERSION:ten
";
    let r = MediaPlaylist::parse_ext_m3u(text);
    assert_eq!(r, Err(ParseError::MissingVersion));
}

#[test]
fn error_messages_name_the_missing_tag() {
    assert_eq!(ParseError::MissingHeader.message(), "Missing #EXTM3U header");
    assert_eq!(ParseError::MissingVersion.message(), "Missing #EXT-X-VERSION");
}

#[test]
fn trailing_announcement_without_locator_yields_no_segment() {
    let text = "#EXTM3U
#EXT-X-VERSION:3
#EXTINF:5.000,
";
    let p = MediaPlaylist::parse_ext_m3u(text).expect("should parse");
    assert_eq!(p.segments.len(), 0);
    assert_eq!(p.discontinuity.len(), 0);
}
