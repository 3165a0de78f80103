//! The media playlist structure and its parser.
//!
//! A playlist text is scanned line by line after a mandatory header line.
//! A segment-duration tag announces a segment and the scan then waits for
//! the next line naming a transport-stream resource, skipping anything
//! else; completed segments are appended both to the flat segment list
//! and to the current discontinuity group, whose running total is kept at
//! whole-millisecond precision.  The scan is written out as a
//! specification-level state machine ([`step`], [`scan`], [`spec_parse`])
//! and the executable parser is proved to return exactly what that model
//! says.

use vstd::prelude::*;

use crate::duration::Duration;
use crate::duration::float_secs_of;
use crate::duration::parse_fractional_secs;
use crate::text::after_last_colon;
use crate::text::chars_of;
use crate::text::contains_range;
use crate::text::extract_digits;
use crate::text::extract_frac;
use crate::text::filter_digits;
use crate::text::filter_frac;
use crate::text::first_occ;
use crate::text::has_sub;
use crate::text::parse_u64_digits;
use crate::text::parse_u64_from_digits;
use crate::text::parse_u64_plain;
use crate::text::parse_u64_range;
use crate::text::range_eq_lit;
use crate::text::scan_to;
use crate::text::spec_lines;
use crate::text::split_lines;
use crate::text::suffix_after_last_colon;

verus! {

/// One playable chunk: its declared duration and the resource-locator
/// line that named it, taken verbatim.
#[derive(Debug, Clone, PartialEq, Eq)]
pub struct MediaSegment {
    pub duration: Duration,
    pub url: String,
}

/// The contiguous run of segments between two discontinuity boundaries,
/// with the millisecond-precision sum of its members' durations.
#[derive(Debug, Clone, PartialEq, Eq)]
pub struct DiscontinuitySegment {
    pub discontinuity_duration: Duration,
    pub discontinuity_segments: Vec<MediaSegment>,
}

/// A parsed media playlist.
#[derive(Debug, Clone, PartialEq, Eq)]
pub struct MediaPlaylist {
    /// Whether an end-of-list tag was seen.
    pub ended: bool,
    /// Every parsed segment, in manifest order.
    pub segments: Vec<MediaSegment>,
    /// Declared upper bound on any segment's duration, in whole seconds.
    pub target_duration: Duration,
    /// Compatibility version; parsing fails without one.
    pub version: u64,
    /// The segments grouped between discontinuity boundaries.
    pub discontinuity: Vec<DiscontinuitySegment>,
}

/// Why a playlist fails to parse.
#[derive(Debug, Clone, Copy, PartialEq, Eq)]
pub enum ParseError {
    /// The first line is not the playlist header marker.
    MissingHeader,
    /// The scan ended without a successfully parsed version tag.
    MissingVersion,
}

impl ParseError {
    /// The wording the parser reports for this error.
    pub fn message(&self) -> (s: &'static str)
        ensures
            *self is MissingHeader ==> s@ == "Missing #EXTM3U header"@,
            *self is MissingVersion ==> s@ == "Missing #EXT-X-VERSION"@,
    {
        match self {
            ParseError::MissingHeader => "Missing #EXTM3U header",
            ParseError::MissingVersion => "Missing #EXT-X-VERSION",
        }
    }
}

/// Mathematical image of a [`MediaSegment`].
pub ghost struct SegV {
    pub duration: Duration,
    pub url: Seq<char>,
}

/// Mathematical image of a [`DiscontinuitySegment`].
pub ghost struct GroupV {
    pub duration: Duration,
    pub segments: Seq<SegV>,
}

/// Mathematical image of a [`MediaPlaylist`].
pub ghost struct PlaylistV {
    pub ended: bool,
    pub segments: Seq<SegV>,
    pub target_duration: Duration,
    pub version: u64,
    pub discontinuity: Seq<GroupV>,
}

impl View for MediaSegment {
    type V = SegV;

    open spec fn view(&self) -> SegV {
        SegV { duration: self.duration, url: self.url@ }
    }
}

/// The images of a sequence of segments.
pub open spec fn segs_view(v: Seq<MediaSegment>) -> Seq<SegV> {
    v.map_values(|m: MediaSegment| m@)
}

impl View for DiscontinuitySegment {
    type V = GroupV;

    open spec fn view(&self) -> GroupV {
        GroupV {
            duration: self.discontinuity_duration,
            segments: segs_view(self.discontinuity_segments@),
        }
    }
}

/// The images of a sequence of groups.
pub open spec fn groups_view(v: Seq<DiscontinuitySegment>) -> Seq<GroupV> {
    v.map_values(|g: DiscontinuitySegment| g@)
}

impl View for MediaPlaylist {
    type V = PlaylistV;

    open spec fn view(&self) -> PlaylistV {
        PlaylistV {
            ended: self.ended,
            segments: segs_view(self.segments@),
            target_duration: self.target_duration,
            version: self.version,
            discontinuity: groups_view(self.discontinuity@),
        }
    }
}

/// The state carried across the line scan.
pub ghost struct ScanState {
    /// End-of-list tag seen.
    pub ended: bool,
    /// Completed segments so far, in order.
    pub segments: Seq<SegV>,
    /// Last successfully parsed target duration (zero before any).
    pub target_duration: Duration,
    /// Outcome of the most recent version tag, if any.
    pub version: Option<u64>,
    /// Discontinuity groups so far.
    pub groups: Seq<GroupV>,
    /// Duration announced by the most recent segment-duration tag.
    pub pending: Duration,
    /// The next completed segment opens a new group.
    pub boundary: bool,
    /// A segment-duration tag was seen and its locator line is awaited.
    pub awaiting: bool,
}

/// The scan state before any line.
pub open spec fn init_state() -> ScanState {
    ScanState {
        ended: false,
        segments: Seq::empty(),
        target_duration: Duration { secs: 0, nanos: 0 },
        version: None,
        groups: Seq::empty(),
        pending: Duration { secs: 0, nanos: 0 },
        boundary: true,
        awaiting: false,
    }
}

/// A locator line completes the announced segment: it joins the flat
/// list, and either opens a new group (at a boundary, or before any
/// group exists) or joins the last group, raising its millisecond total.
pub open spec fn complete_segment(st: ScanState, line: Seq<char>) -> ScanState {
    let seg = SegV { duration: st.pending, url: line };
    let groups = if st.groups.len() == 0 || st.boundary {
        st.groups.push(GroupV { duration: st.pending, segments: seq![seg] })
    } else {
        let gi = st.groups.len() - 1;
        let last = st.groups[gi];
        st.groups.update(
            gi,
            GroupV {
                duration: last.duration.spec_add_millis(st.pending),
                segments: last.segments.push(seg),
            },
        )
    };
    ScanState {
        segments: st.segments.push(seg),
        groups,
        boundary: false,
        awaiting: false,
        ..st
    }
}

/// One line of the scan.  While a locator is awaited, only a line naming
/// a transport-stream resource acts; otherwise the first matching tag
/// wins and unrecognized lines do nothing.
pub open spec fn step(st: ScanState, line: Seq<char>) -> ScanState {
    if st.awaiting {
        if has_sub(line, ".ts"@) {
            complete_segment(st, line)
        } else {
            st
        }
    } else if has_sub(line, "EXT-X-TARGETDURATION"@) {
        match parse_u64_digits(filter_digits(after_last_colon(line))) {
            Some(n) => ScanState { target_duration: Duration { secs: n, nanos: 0 }, ..st },
            None => st,
        }
    } else if has_sub(line, "#EXT-X-VERSION:"@) {
        ScanState { version: parse_u64_plain(line.skip("#EXT-X-VERSION:"@.len() as int)), ..st }
    } else if has_sub(line, "#EXTINF:"@) {
        let payload = line.skip("#EXTINF:"@.len() as int);
        let frac = filter_frac(payload.take(first_occ(payload, ',')));
        match float_secs_of(frac) {
            Some(p) => ScanState {
                pending: Duration { secs: p.0, nanos: p.1 },
                awaiting: true,
                ..st
            },
            None => ScanState { awaiting: true, ..st },
        }
    } else if has_sub(line, "#EXT-X-DISCONTINUITY"@) {
        ScanState { boundary: true, ..st }
    } else if has_sub(line, "#EXT-X-ENDLIST"@) {
        ScanState { ended: true, ..st }
    } else {
        st
    }
}

/// The scan state after the given lines.
pub open spec fn scan(lines: Seq<Seq<char>>) -> ScanState
    decreases lines.len(),
{
    if lines.len() == 0 {
        init_state()
    } else {
        step(scan(lines.drop_last()), lines.last())
    }
}

/// What parsing yields: the header line is checked first; then the
/// remaining lines are scanned, and the result requires a version.
pub open spec fn spec_parse(t: Seq<char>) -> Result<PlaylistV, ParseError> {
    let ls = spec_lines(t);
    if ls.len() == 0 || ls[0] != "#EXTM3U"@ {
        Err(ParseError::MissingHeader)
    } else {
        let st = scan(ls.drop_first());
        match st.version {
            Some(v) => Ok(
                PlaylistV {
                    ended: st.ended,
                    segments: st.segments,
                    target_duration: st.target_duration,
                    version: v,
                    discontinuity: st.groups,
                },
            ),
            None => Err(ParseError::MissingVersion),
        }
    }
}

impl MediaPlaylist {
    /// Parse playlist text into a [`MediaPlaylist`], exactly as the
    /// line-by-line model [`spec_parse`] describes: the same text always
    /// yields the same playlist or the same error.
    pub fn parse_ext_m3u(file: &str) -> (r: Result<MediaPlaylist, ParseError>)
        ensures
            match r {
                Ok(p) => spec_parse(file@) == Ok::<PlaylistV, ParseError>(p@),
                Err(e) => spec_parse(file@) == Err::<PlaylistV, ParseError>(e),
            },
    {
        let chars: Vec<char> = chars_of(file);
        let bs: Vec<(usize, usize)> = split_lines(&chars);
        let nlines: usize = bs.len();
        if nlines == 0 {
            return Err(ParseError::MissingHeader);
        }
        let first = bs[0];
        if !range_eq_lit(&chars, first.0, first.1, "#EXTM3U") {
            return Err(ParseError::MissingHeader);
        }
        let ghost tail = spec_lines(file@).drop_first();

        let mut ended: bool = false;
        let mut segments: Vec<MediaSegment> = Vec::new();
        let mut target_duration: Duration = Duration::zero();
        let mut version: Option<u64> = None;
        let mut groups: Vec<DiscontinuitySegment> = Vec::new();
        let mut pending: Duration = Duration::zero();
        let mut boundary: bool = true;
        let mut awaiting: bool = false;

        proof {
            assert(tail.take(0) =~= Seq::<Seq<char>>::empty());
            assert(segs_view(segments@) =~= Seq::<SegV>::empty());
            assert(groups_view(groups@) =~= Seq::<GroupV>::empty());
        }

        let mut i: usize = 1;
        while i < nlines
            invariant
                1 <= i <= nlines,
                nlines == bs@.len(),
                chars@ == file@,
                bs@.len() == spec_lines(file@).len(),
                forall|k: int|
                    0 <= k < bs@.len() ==> (#[trigger] bs@[k]).0 <= bs@[k].1 <= chars@.len()
                        && chars@.subrange(bs@[k].0 as int, bs@[k].1 as int)
                        == spec_lines(file@)[k],
                tail == spec_lines(file@).drop_first(),
                ended == scan(tail.take(i - 1)).ended,
                segs_view(segments@) == scan(tail.take(i - 1)).segments,
                target_duration == scan(tail.take(i - 1)).target_duration,
                version == scan(tail.take(i - 1)).version,
                groups_view(groups@) == scan(tail.take(i - 1)).groups,
                pending == scan(tail.take(i - 1)).pending,
                boundary == scan(tail.take(i - 1)).boundary,
                awaiting == scan(tail.take(i - 1)).awaiting,
            decreases nlines - i,
        {
            let ghost st = scan(tail.take(i - 1));
            let bnd = bs[i];
            let a: usize = bnd.0;
            let b: usize = bnd.1;
            let ghost line = chars@.subrange(a as int, b as int);
            proof {
                assert(line == spec_lines(file@)[i as int]);
                assert(tail[i - 1] == spec_lines(file@)[i as int]);
                assert(tail.take(i as int).drop_last() =~= tail.take(i - 1));
                assert(tail.take(i as int).last() == tail[i - 1]);
                assert(scan(tail.take(i as int)) == step(st, line));
            }
            if awaiting {
                if contains_range(&chars, a, b, ".ts") {
                    let url: String = file.substring_char(a, b).to_owned();
                    let url2: String = url.clone();
                    let seg = MediaSegment { duration: pending, url };
                    let seg2 = MediaSegment { duration: pending, url: url2 };
                    let ghost segv = SegV { duration: st.pending, url: line };
                    proof {
                        assert(seg@ == segv);
                        assert(seg2@ == segv);
                    }
                    if groups.len() == 0 || boundary {
                        let mut gsegs: Vec<MediaSegment> = Vec::new();
                        gsegs.push(seg2);
                        let g = DiscontinuitySegment {
                            discontinuity_duration: pending,
                            discontinuity_segments: gsegs,
                        };
                        proof {
                            assert(g@.segments =~= seq![segv]);
                            assert(g@ == (GroupV { duration: st.pending, segments: seq![segv] }));
                        }
                        groups.push(g);
                        proof {
                            assert(groups_view(groups@) =~= step(st, line).groups);
                        }
                    } else {
                        let mut g = groups.pop().unwrap();
                        let nd = g.discontinuity_duration.add_millis(&pending);
                        g.discontinuity_duration = nd;
                        g.discontinuity_segments.push(seg2);
                        proof {
                            let gi = st.groups.len() - 1;
                            assert(groups_view(groups@) =~= st.groups.take(gi));
                            assert(segs_view(g.discontinuity_segments@) =~= st.groups[gi].segments.push(segv));
                        }
                        groups.push(g);
                        proof {
                            assert(groups_view(groups@) =~= step(st, line).groups);
                        }
                    }
                    segments.push(seg);
                    boundary = false;
                    awaiting = false;
                    proof {
                        assert(segs_view(segments@) =~= step(st, line).segments);
                    }
                }
            } else {
                let lit_td = "EXT-X-TARGETDURATION";
                let lit_ver = "#EXT-X-VERSION:";
                let lit_inf = "#EXTINF:";
                let lit_disc = "#EXT-X-DISCONTINUITY";
                let lit_end = "#EXT-X-ENDLIST";
                if contains_range(&chars, a, b, lit_td) {
                    let lo: usize = suffix_after_last_colon(&chars, a, b);
                    let digits: Vec<char> = extract_digits(&chars, lo, b);
                    proof {
                        assert(digits@ == filter_digits(after_last_colon(line)));
                    }
                    match parse_u64_from_digits(&digits) {
                        Some(n) => {
                            target_duration = Duration::from_secs(n);
                        },
                        None => {},
                    }
                } else if contains_range(&chars, a, b, lit_ver) {
                    let n: usize = lit_ver.unicode_len();
                    proof {
                        assert(line.len() >= lit_ver@.len()) by {
                            let k = choose|k: int|
                                0 <= k && k + lit_ver@.len() <= line.len()
                                    && #[trigger] line.subrange(k, k + lit_ver@.len())
                                    == lit_ver@;
                        }
                        assert(line.skip(lit_ver@.len() as int) =~= chars@.subrange(
                            a + lit_ver@.len(),
                            b as int,
                        ));
                    }
                    version = parse_u64_range(&chars, a + n, b);
                } else if contains_range(&chars, a, b, lit_inf) {
                    let n: usize = lit_inf.unicode_len();
                    proof {
                        assert(line.len() >= lit_inf@.len()) by {
                            let k = choose|k: int|
                                0 <= k && k + lit_inf@.len() <= line.len()
                                    && #[trigger] line.subrange(k, k + lit_inf@.len())
                                    == lit_inf@;
                        }
                        assert(line.skip(lit_inf@.len() as int) =~= chars@.subrange(
                            a + lit_inf@.len(),
                            b as int,
                        ));
                    }
                    let e: usize = scan_to(&chars, a + n, b, ',');
                    let frac: Vec<char> = extract_frac(&chars, a + n, e);
                    proof {
                        let payload = line.skip(lit_inf@.len() as int);
                        assert(payload.take(first_occ(payload, ',')) =~= chars@.subrange(
                            a + lit_inf@.len(),
                            e as int,
                        ));
                        assert(frac@ == filter_frac(payload.take(first_occ(payload, ','))));
                    }
                    match parse_fractional_secs(&frac) {
                        Some(p) => {
                            pending = Duration { secs: p.0, nanos: p.1 };
                        },
                        None => {},
                    }
                    awaiting = true;
                } else if contains_range(&chars, a, b, lit_disc) {
                    boundary = true;
                } else if contains_range(&chars, a, b, lit_end) {
                    ended = true;
                }
            }
            proof {
                assert(ended == scan(tail.take(i as int)).ended);
                assert(segs_view(segments@) == scan(tail.take(i as int)).segments);
                assert(target_duration == scan(tail.take(i as int)).target_duration);
                assert(version == scan(tail.take(i as int)).version);
                assert(groups_view(groups@) == scan(tail.take(i as int)).groups);
                assert(pending == scan(tail.take(i as int)).pending);
                assert(boundary == scan(tail.take(i as int)).boundary);
                assert(awaiting == scan(tail.take(i as int)).awaiting);
            }
            i += 1;
        }
        proof {
            assert(tail.take(nlines - 1) =~= tail);
        }
        match version {
            Some(v) => {
                let p = MediaPlaylist {
                    ended,
                    segments,
                    target_duration,
                    version: v,
                    discontinuity: groups,
                };
                Ok(p)
            },
            None => Err(ParseError::MissingVersion),
        }
    }
}

} // verus!
