use hls_playlist::DiscontinuitySegment;
use hls_playlist::Duration;
use hls_playlist::MediaPlaylist;
use hls_playlist::MediaSegment;

fn dur(d: core::time::Duration) -> Duration {
    Duration { secs: d.as_secs(), nanos: d.subsec_nanos() }
}

const BIG_BUCK_BUNNY: &str = "#EXTM3U
#EXT-X-VERSION:4
#EXT-X-ALLOW-CACHE:NO
#EXT-X-TARGETDURATION:20
#EXT-X-MEDIA-SEQUENCE:1
#EXT-X-PROGRAM-DATE-TIME:2015-08-25T01:59:23.708+00:00
#EXTINF:12.166,
#EXT-X-BYTERANGE:1430680@4048392
segment_1440468394459_1440468394459_1.ts
#EXTINF:13.292,
#EXT-X-BYTERANGE:840360@5479072
segment_1440468394459_1440468394459_2.ts
#EXT-X-DISCONTINUITY
#EXTINF:10.500,
#EXT-X-BYTERANGE:1009184@6319432
segment_1440468394459_1440468394459_3.ts
#EXTINF:11.417,
#EXT-X-BYTERANGE:806332@0
segment_1440468394459_1440468394459_4.ts
#EXTINF:12.459,
#EXT-X-BYTERANGE:701616@806332
segment_1440468394459_1440468394459_5.ts
#EXT-X-DISCONTINUITY
#EXTINF:14.000,
#EXT-X-BYTERANGE:931352@1507948
segment_1440468394459_1440468394459_6.ts
#EXTINF:19.292,
#EXT-X-BYTERANGE:1593676@2439300
segment_1440468394459_1440468394459_7.ts
#EXTINF:7.834,
#EXT-X-BYTERANGE:657812@4032976
segment_1440468394459_1440468394459_8.ts
#EXT-X-ENDLIST
";

// Helper because this playlist is valid and should parse correctly.
fn big_buck_bunny() -> MediaPlaylist {
    MediaPlaylist::parse_ext_m3u(BIG_BUCK_BUNNY).expect("Big Buck Bunny should parse")
}

#[test]
fn parses_version() {
    let playlist = big_buck_bunny();
    assert_eq!(playlist.version, 4);
}

#[test]
fn parses_version_negative_ts() {
    let playlist = big_buck_bunny();
    assert_ne!(playlist.version, 3);
}

#[test]
fn parses_target_duration() {
    let playlist = big_buck_bunny();
    assert_eq!(playlist.target_duration, dur(core::time::Duration::from_secs(20)));
}

#[test]
fn parses_target_duration_negative_ts() {
    let playlist = big_buck_bunny();
    assert_ne!(playlist.target_duration, dur(core::time::Duration::from_secs(21)));
}

#[test]
fn parses_end_tag() {
    let playlist = big_buck_bunny();
    assert!(playlist.ended);
}

#[test]
fn parses_segments() {
    let playlist = big_buck_bunny();
    let expected = vec![
        MediaSegment {
            duration: dur(core::time::Duration::from_secs_f32(12.166)),
            url: "segment_1440468394459_1440468394459_1.ts".to_string(),
        },
        MediaSegment {
            duration: dur(core::time::Duration::from_secs_f32(13.292)),
            url: "segment_1440468394459_1440468394459_2.ts".to_string(),
        },
        MediaSegment {
            duration: dur(core::time::Duration::from_secs_f32(10.500)),
            url: "segment_1440468394459_1440468394459_3.ts".to_string(),
        },
        MediaSegment {
            duration: dur(core::time::Duration::from_secs_f32(11.417)),
            url: "segment_1440468394459_1440468394459_4.ts".to_string(),
        },
        MediaSegment {
            duration: dur(core::time::Duration::from_secs_f32(12.459)),
            url: "segment_1440468394459_1440468394459_5.ts".to_string(),
        },
        MediaSegment {
            duration: dur(core::time::Duration::from_secs_f32(14.000)),
            url: "segment_1440468394459_1440468394459_6.ts".to_string(),
        },
        MediaSegment {
            duration: dur(core::time::Duration::from_secs_f32(19.292)),
            url: "segment_1440468394459_1440468394459_7.ts".to_string(),
        },
        MediaSegment {
            duration: dur(core::time::Duration::from_secs_f32(7.834)),
            url: "segment_1440468394459_1440468394459_8.ts".to_string(),
        },
    ];

    // Slightly easier to read failures if we go one at a time.
    assert_eq!(playlist.segments.len(), expected.len());
    for (actual, expected_elm) in playlist.segments.into_iter().zip(expected) {
        assert_eq!(actual, expected_elm);
    }
}

#[test]
fn parses_discontinuity() {
    let playlist = big_buck_bunny();
    let expected = vec![
        DiscontinuitySegment {
            discontinuity_duration: dur(core::time::Duration::from_millis(25457)),
            discontinuity_segments: vec![
                MediaSegment {
                    duration: dur(core::time::Duration::from_secs_f32(12.166)),
                    url: "segment_1440468394459_1440468394459_1.ts".to_string(),
                },
                MediaSegment {
                    duration: dur(core::time::Duration::from_secs_f32(13.292)),
                    url: "segment_1440468394459_1440468394459_2.ts".to_string(),
                },
            ],
        },
        DiscontinuitySegment {
            discontinuity_duration: dur(core::time::Duration::from_millis(34374)),
            discontinuity_segments: vec![
                MediaSegment {
                    duration: dur(core::time::Duration::from_secs_f32(10.500)),
                    url: "segment_1440468394459_1440468394459_3.ts".to_string(),
                },
                MediaSegment {
                    duration: dur(core::time::Duration::from_secs_f32(11.417)),
                    url: "segment_1440468394459_1440468394459_4.ts".to_string(),
                },
                MediaSegment {
                    duration: dur(core::time::Duration::from_secs_f32(12.459)),
                    url: "segment_1440468394459_1440468394459_5.ts".to_string(),
                },
            ],
        },
        DiscontinuitySegment {
            discontinuity_duration: dur(core::time::Duration::from_millis(41125)),
            discontinuity_segments: vec![
                MediaSegment {
                    duration: dur(core::time::Duration::from_secs_f32(14.000)),
                    url: "segment_1440468394459_1440468394459_6.ts".to_string(),
                },
                MediaSegment {
                    duration: dur(core::time::Duration::from_secs_f32(19.292)),
                    url: "segment_1440468394459_1440468394459_7.ts".to_string(),
                },
                MediaSegment {
                    duration: dur(core::time::Duration::from_secs_f32(7.834)),
                    url: "segment_1440468394459_1440468394459_8.ts".to_string(),
                },
            ],
        },
    ];
    for (outter_actual, outter_expected) in playlist.discontinuity.into_iter().zip(expected) {
        assert_eq!(outter_actual.discontinuity_duration, outter_expected.discontinuity_duration);
        for (inner_actual, inner_expected) in outter_actual
            .discontinuity_segments
            .into_iter()
            .zip(outter_expected.discontinuity_segments)
        {
            assert_eq!(inner_actual, inner_expected);
        }
    }
}
