//! Laws of the playlist scan.
//!
//! These lemmas state, over the scan model that [`crate::media_playlist::spec_parse`]
//! pins the parser to, how the discontinuity groups account for the flat
//! segment list: the groups partition the segments in order, their
//! millisecond totals add up to the segments' total, a run of
//! announcement/locator pairs appends exactly those segments, the
//! end-of-list mark tracks the end-of-list tag, and the header check
//! comes before everything else.

use vstd::prelude::*;

use crate::duration::Duration;
use crate::media_playlist::GroupV;
use crate::media_playlist::ParseError;
use crate::media_playlist::PlaylistV;
use crate::media_playlist::ScanState;
use crate::media_playlist::SegV;
use crate::media_playlist::complete_segment;
use crate::media_playlist::init_state;
use crate::media_playlist::scan;
use crate::media_playlist::spec_parse;
use crate::media_playlist::step;
use crate::text::has_sub;
use crate::text::spec_lines;

verus! {

/// Concatenation of every group's segment list, in order.
pub open spec fn concat_groups(gs: Seq<GroupV>) -> Seq<SegV>
    decreases gs.len(),
{
    if gs.len() == 0 {
        Seq::empty()
    } else {
        concat_groups(gs.drop_last()) + gs.last().segments
    }
}

/// Millisecond sum of a segment list's durations.
pub open spec fn sum_millis(segs: Seq<SegV>) -> int
    decreases segs.len(),
{
    if segs.len() == 0 {
        0
    } else {
        sum_millis(segs.drop_last()) + segs.last().duration.spec_millis()
    }
}

/// Millisecond sum of the groups' recorded totals.
pub open spec fn groups_millis(gs: Seq<GroupV>) -> int
    decreases gs.len(),
{
    if gs.len() == 0 {
        0
    } else {
        groups_millis(gs.drop_last()) + gs.last().duration.spec_millis()
    }
}

/// Segment sums are non-negative.
pub proof fn lemma_sum_nonneg(segs: Seq<SegV>)
    ensures
        sum_millis(segs) >= 0,
    decreases segs.len(),
{
    if segs.len() > 0 {
        lemma_sum_nonneg(segs.drop_last());
    }
}

/// Appending a segment adds its milliseconds to the sum.
pub proof fn lemma_sum_push(segs: Seq<SegV>, s: SegV)
    ensures
        sum_millis(segs.push(s)) == sum_millis(segs) + s.duration.spec_millis(),
{
    assert(segs.push(s).drop_last() =~= segs);
    assert(segs.push(s).last() == s);
}

/// Segment sums split over concatenation.
pub proof fn lemma_sum_concat(a: Seq<SegV>, b: Seq<SegV>)
    ensures
        sum_millis(a + b) == sum_millis(a) + sum_millis(b),
    decreases b.len(),
{
    if b.len() == 0 {
        assert(a + b =~= a);
    } else {
        assert((a + b).drop_last() =~= a + b.drop_last());
        assert((a + b).last() == b.last());
        lemma_sum_concat(a, b.drop_last());
    }
}

/// Every group's recorded total equals its members' millisecond sum.
pub open spec fn groups_exact(gs: Seq<GroupV>) -> bool {
    forall|k: int|
        0 <= k < gs.len() ==> (#[trigger] gs[k]).duration.spec_millis() == sum_millis(
            gs[k].segments,
        )
}

/// One scan step keeps the groups a partition of the segment list.
pub proof fn lemma_step_partition(st: ScanState, line: Seq<char>)
    requires
        concat_groups(st.groups) == st.segments,
    ensures
        concat_groups(step(st, line).groups) == step(st, line).segments,
{
    if st.awaiting && has_sub(line, ".ts"@) {
        let seg = SegV { duration: st.pending, url: line };
        let st2 = complete_segment(st, line);
        if st.groups.len() == 0 || st.boundary {
            let g = GroupV { duration: st.pending, segments: seq![seg] };
            assert(st.groups.push(g).drop_last() =~= st.groups);
            assert(concat_groups(st.groups.push(g)) == concat_groups(st.groups) + seq![seg]);
            assert(concat_groups(st.groups) + seq![seg] =~= st.segments.push(seg));
        } else {
            let gi = st.groups.len() - 1;
            let last = st.groups[gi];
            let g2 = GroupV {
                duration: last.duration.spec_add_millis(st.pending),
                segments: last.segments.push(seg),
            };
            let gs2 = st.groups.update(gi, g2);
            assert(gs2.drop_last() =~= st.groups.drop_last());
            assert(gs2.last() == g2);
            assert(concat_groups(gs2) == concat_groups(st.groups.drop_last())
                + last.segments.push(seg));
            assert(st.groups.last() == last);
            assert(concat_groups(st.groups) == concat_groups(st.groups.drop_last())
                + last.segments);
            assert(concat_groups(st.groups.drop_last()) + last.segments.push(seg)
                =~= (concat_groups(st.groups.drop_last()) + last.segments).push(seg));
        }
    }
}

/// The scan's groups always partition its segment list.
pub proof fn lemma_scan_partition(lines: Seq<Seq<char>>)
    ensures
        concat_groups(scan(lines).groups) == scan(lines).segments,
    decreases lines.len(),
{
    if lines.len() == 0 {
        assert(concat_groups(scan(lines).groups) =~= scan(lines).segments);
    } else {
        lemma_scan_partition(lines.drop_last());
        lemma_step_partition(scan(lines.drop_last()), lines.last());
    }
}

/// Concatenating every group's segment list, in order, reproduces the
/// parsed playlist's flat segment list exactly.
pub proof fn lemma_groups_cover_segments(t: Seq<char>, p: PlaylistV)
    requires
        spec_parse(t) == Ok::<PlaylistV, ParseError>(p),
    ensures
        concat_groups(p.discontinuity) == p.segments,
{
    lemma_scan_partition(spec_lines(t).drop_first());
}

/// One scan step never shrinks the segment-duration sum.
pub proof fn lemma_step_sum_grows(st: ScanState, line: Seq<char>)
    ensures
        sum_millis(step(st, line).segments) >= sum_millis(st.segments),
{
    if st.awaiting && has_sub(line, ".ts"@) {
        let seg = SegV { duration: st.pending, url: line };
        lemma_sum_push(st.segments, seg);
    }
}

/// One scan step keeps every group total exact, as long as the
/// segment-duration sum after the step still fits the 64-bit
/// millisecond range in which totals are accumulated.
pub proof fn lemma_step_exact(st: ScanState, line: Seq<char>)
    requires
        groups_exact(st.groups),
        concat_groups(st.groups) == st.segments,
        sum_millis(step(st, line).segments) <= u64::MAX,
    ensures
        groups_exact(step(st, line).groups),
{
    if st.awaiting && has_sub(line, ".ts"@) {
        let seg = SegV { duration: st.pending, url: line };
        if st.groups.len() == 0 || st.boundary {
            let g = GroupV { duration: st.pending, segments: seq![seg] };
            assert(seq![seg].drop_last() =~= Seq::<SegV>::empty());
            assert(seq![seg].last() == seg);
            assert(sum_millis(Seq::<SegV>::empty()) == 0);
            assert(sum_millis(seq![seg]) == st.pending.spec_millis());
            assert(forall|k: int|
                0 <= k < st.groups.len() ==> st.groups.push(g)[k] == #[trigger] st.groups[k]);
        } else {
            let gi = st.groups.len() - 1;
            let last = st.groups[gi];
            let total = last.duration.spec_millis() + st.pending.spec_millis();
            // The new total fits: the other groups contribute non-negative
            // sums, so this group's new sum is at most the whole list's.
            assert(st.groups.last() == last);
            assert(concat_groups(st.groups) == concat_groups(st.groups.drop_last())
                + last.segments);
            lemma_sum_concat(concat_groups(st.groups.drop_last()), last.segments);
            lemma_sum_nonneg(concat_groups(st.groups.drop_last()));
            lemma_sum_push(st.segments, seg);
            assert(sum_millis(last.segments) <= sum_millis(st.segments));
            assert(total <= sum_millis(step(st, line).segments));
            Duration::lemma_from_millis_exact(total as u64);
            lemma_sum_push(last.segments, seg);
            let g2 = GroupV {
                duration: last.duration.spec_add_millis(st.pending),
                segments: last.segments.push(seg),
            };
            assert(g2.duration.spec_millis() == sum_millis(g2.segments));
            assert(forall|k: int|
                0 <= k < gi ==> st.groups.update(gi, g2)[k] == #[trigger] st.groups[k]);
        }
    }
}

/// The scan's group totals are exact whenever the final segment sum fits
/// the 64-bit millisecond range.
pub proof fn lemma_scan_exact(lines: Seq<Seq<char>>)
    requires
        sum_millis(scan(lines).segments) <= u64::MAX,
    ensures
        groups_exact(scan(lines).groups),
    decreases lines.len(),
{
    if lines.len() > 0 {
        let st = scan(lines.drop_last());
        lemma_step_sum_grows(st, lines.last());
        lemma_scan_exact(lines.drop_last());
        lemma_scan_partition(lines.drop_last());
        lemma_step_exact(st, lines.last());
    }
}

/// When every group total is exact, the totals add up to the sum over
/// the groups' concatenation.
pub proof fn lemma_groups_total(gs: Seq<GroupV>)
    requires
        groups_exact(gs),
    ensures
        groups_millis(gs) == sum_millis(concat_groups(gs)),
    decreases gs.len(),
{
    if gs.len() > 0 {
        assert(groups_exact(gs.drop_last())) by {
            assert(forall|k: int|
                0 <= k < gs.len() - 1 ==> gs.drop_last()[k] == #[trigger] gs[k]);
        }
        lemma_groups_total(gs.drop_last());
        lemma_sum_concat(concat_groups(gs.drop_last()), gs.last().segments);
        assert(gs[gs.len() - 1] == gs.last());
    }
}

/// The groups' millisecond totals sum to the segments' millisecond sum,
/// for every parsed playlist whose total fits the 64-bit millisecond
/// range in which group totals are accumulated.
pub proof fn lemma_group_durations_account(t: Seq<char>, p: PlaylistV)
    requires
        spec_parse(t) == Ok::<PlaylistV, ParseError>(p),
        sum_millis(p.segments) <= u64::MAX,
    ensures
        groups_millis(p.discontinuity) == sum_millis(p.segments),
{
    let lines = spec_lines(t).drop_first();
    lemma_scan_partition(lines);
    lemma_scan_exact(lines);
    lemma_groups_total(scan(lines).groups);
}

/// The scan state after `lines` more lines, starting from `st`.
pub open spec fn scan_from(st: ScanState, lines: Seq<Seq<char>>) -> ScanState
    decreases lines.len(),
{
    if lines.len() == 0 {
        st
    } else {
        step(scan_from(st, lines.drop_last()), lines.last())
    }
}

/// The scan is the from-initial-state fold.
pub proof fn lemma_scan_is_scan_from(lines: Seq<Seq<char>>)
    ensures
        scan(lines) == scan_from(init_state(), lines),
    decreases lines.len(),
{
    if lines.len() > 0 {
        lemma_scan_is_scan_from(lines.drop_last());
    }
}

/// Folding over concatenated line lists composes.
pub proof fn lemma_scan_from_append(st: ScanState, a: Seq<Seq<char>>, b: Seq<Seq<char>>)
    ensures
        scan_from(st, a + b) == scan_from(scan_from(st, a), b),
    decreases b.len(),
{
    if b.len() == 0 {
        assert(a + b =~= a);
    } else {
        assert((a + b).drop_last() =~= a + b.drop_last());
        assert((a + b).last() == b.last());
        lemma_scan_from_append(st, a, b.drop_last());
    }
}

/// The scan splits at any point into a prefix scan and a resumed fold.
pub proof fn lemma_scan_split(lines: Seq<Seq<char>>, m: int)
    requires
        0 <= m <= lines.len(),
    ensures
        scan(lines) == scan_from(scan(lines.take(m)), lines.skip(m)),
{
    assert(lines =~= lines.take(m) + lines.skip(m));
    lemma_scan_is_scan_from(lines);
    lemma_scan_is_scan_from(lines.take(m));
    lemma_scan_from_append(init_state(), lines.take(m), lines.skip(m));
}

/// A line that announces a segment: it carries the segment-duration tag
/// and nothing that an earlier scan arm would match first.
pub open spec fn announces_segment(l: Seq<char>) -> bool {
    &&& !has_sub(l, "EXT-X-TARGETDURATION"@)
    &&& !has_sub(l, "#EXT-X-VERSION:"@)
    &&& has_sub(l, "#EXTINF:"@)
}

/// A line that names a transport-stream resource.
pub open spec fn names_resource(l: Seq<char>) -> bool {
    has_sub(l, ".ts"@)
}

/// The lines of a run of announcement/locator pairs, in order.
pub open spec fn pair_lines(pairs: Seq<(Seq<char>, Seq<char>)>) -> Seq<Seq<char>>
    decreases pairs.len(),
{
    if pairs.len() == 0 {
        Seq::empty()
    } else {
        pair_lines(pairs.drop_last()) + seq![pairs.last().0, pairs.last().1]
    }
}

/// Scanning a run of announcement/locator pairs, begun outside a
/// locator wait, appends exactly one segment per pair, in order, each
/// carrying its locator line verbatim, and leaves no locator awaited.
pub proof fn lemma_pairs_append_segments(st: ScanState, pairs: Seq<(Seq<char>, Seq<char>)>)
    requires
        !st.awaiting,
        forall|k: int|
            0 <= k < pairs.len() ==> announces_segment((#[trigger] pairs[k]).0)
                && names_resource(pairs[k].1),
    ensures
        scan_from(st, pair_lines(pairs)).segments.len() == st.segments.len() + pairs.len(),
        forall|j: int|
            0 <= j < st.segments.len() ==> scan_from(st, pair_lines(pairs)).segments[j]
                == st.segments[j],
        forall|k: int|
            0 <= k < pairs.len() ==> (#[trigger] scan_from(st, pair_lines(pairs)).segments[
                st.segments.len() + k
            ]).url == pairs[k].1,
        !scan_from(st, pair_lines(pairs)).awaiting,
    decreases pairs.len(),
{
    if pairs.len() > 0 {
        let front = pairs.drop_last();
        let d = pairs.last().0;
        let u = pairs.last().1;
        assert(forall|k: int|
            0 <= k < front.len() ==> front[k] == #[trigger] pairs[k]);
        lemma_pairs_append_segments(st, front);
        let mid = scan_from(st, pair_lines(front));
        lemma_scan_from_append(st, pair_lines(front), seq![d, u]);
        assert(seq![d, u].drop_last() =~= seq![d]);
        assert(seq![d].drop_last() =~= Seq::<Seq<char>>::empty());
        assert(pairs[pairs.len() - 1] == pairs.last());
        assert(announces_segment(d) && names_resource(u));
        let mid2 = step(mid, d);
        assert(mid2.awaiting && mid2.segments == mid.segments);
        let fin = step(mid2, u);
        assert(fin == complete_segment(mid2, u));
        assert(fin.segments == mid.segments.push(SegV { duration: mid2.pending, url: u }));
        assert(seq![d, u].last() == u);
        assert(seq![d].last() == d);
        assert(scan_from(mid, Seq::<Seq<char>>::empty()) == mid);
        assert(scan_from(mid, seq![d]) == step(mid, d));
        assert(scan_from(mid, seq![d, u]) == step(step(mid, d), u));
        assert(scan_from(st, pair_lines(pairs)) == fin);
        assert forall|k: int| 0 <= k < pairs.len() implies (#[trigger] fin.segments[
            st.segments.len() + k
        ]).url == pairs[k].1 by {
            if k < pairs.len() - 1 {
                assert(fin.segments[st.segments.len() + k] == mid.segments[
                    st.segments.len() + k
                ]);
            }
        }
    }
}

/// A playlist whose lines after the header are a run of lines that
/// completes no segment, followed by announcement/locator pairs, parses
/// to exactly one segment per pair, in order, each carrying its locator
/// line verbatim.
pub proof fn lemma_parsed_pairs_in_order(
    t: Seq<char>,
    p: PlaylistV,
    prefix: Seq<Seq<char>>,
    pairs: Seq<(Seq<char>, Seq<char>)>,
)
    requires
        spec_parse(t) == Ok::<PlaylistV, ParseError>(p),
        spec_lines(t).drop_first() == prefix + pair_lines(pairs),
        !scan(prefix).awaiting,
        scan(prefix).segments.len() == 0,
        forall|k: int|
            0 <= k < pairs.len() ==> announces_segment((#[trigger] pairs[k]).0)
                && names_resource(pairs[k].1),
    ensures
        p.segments.len() == pairs.len(),
        forall|k: int|
            0 <= k < pairs.len() ==> (#[trigger] p.segments[k]).url == pairs[k].1,
{
    let tail = spec_lines(t).drop_first();
    lemma_scan_is_scan_from(tail);
    lemma_scan_is_scan_from(prefix);
    lemma_scan_from_append(init_state(), prefix, pair_lines(pairs));
    lemma_pairs_append_segments(scan(prefix), pairs);
    let fin = scan_from(scan(prefix), pair_lines(pairs));
    assert(p.segments == fin.segments);
    assert forall|k: int| 0 <= k < pairs.len() implies (#[trigger] p.segments[k]).url
        == pairs[k].1 by {
        assert(fin.segments[scan(prefix).segments.len() + k].url == pairs[k].1);
    }
}

/// The scan marks the playlist ended only when some line holds the
/// end-of-list tag.
pub proof fn lemma_ended_needs_tag(lines: Seq<Seq<char>>)
    ensures
        scan(lines).ended ==> exists|i: int|
            0 <= i < lines.len() && has_sub(#[trigger] lines[i], "#EXT-X-ENDLIST"@),
    decreases lines.len(),
{
    if lines.len() > 0 {
        lemma_ended_needs_tag(lines.drop_last());
        let st = scan(lines.drop_last());
        let line = lines.last();
        if scan(lines).ended {
            if st.ended {
                let i = choose|i: int|
                    0 <= i < lines.drop_last().len() && has_sub(
                        #[trigger] lines.drop_last()[i],
                        "#EXT-X-ENDLIST"@,
                    );
                assert(lines.drop_last()[i] == lines[i]);
                assert(has_sub(lines[i], "#EXT-X-ENDLIST"@));
            } else {
                assert(has_sub(line, "#EXT-X-ENDLIST"@));
                assert(lines[lines.len() - 1] == line);
                assert(has_sub(lines[lines.len() - 1], "#EXT-X-ENDLIST"@));
            }
        }
    }
}

/// Once marked ended, a scan stays ended.
pub proof fn lemma_ended_monotone(st: ScanState, lines: Seq<Seq<char>>)
    requires
        st.ended,
    ensures
        scan_from(st, lines).ended,
    decreases lines.len(),
{
    if lines.len() > 0 {
        lemma_ended_monotone(st, lines.drop_last());
    }
}

/// A line holding the end-of-list tag and nothing an earlier scan arm
/// matches, read while no locator is awaited, marks the playlist ended,
/// whatever follows.
pub proof fn lemma_endlist_tag_sets_ended(lines: Seq<Seq<char>>, i: int)
    requires
        0 <= i < lines.len(),
        has_sub(lines[i], "#EXT-X-ENDLIST"@),
        !has_sub(lines[i], "EXT-X-TARGETDURATION"@),
        !has_sub(lines[i], "#EXT-X-VERSION:"@),
        !has_sub(lines[i], "#EXTINF:"@),
        !has_sub(lines[i], "#EXT-X-DISCONTINUITY"@),
        !scan(lines.take(i)).awaiting,
    ensures
        scan(lines).ended,
{
    assert(lines.take(i + 1).drop_last() =~= lines.take(i));
    assert(lines.take(i + 1).last() == lines[i]);
    assert(scan(lines.take(i + 1)) == step(scan(lines.take(i)), lines[i]));
    assert(scan(lines.take(i + 1)).ended);
    lemma_scan_split(lines, i + 1);
    lemma_ended_monotone(scan(lines.take(i + 1)), lines.skip(i + 1));
}

/// A parsed playlist marked ended owes that mark to an end-of-list tag
/// in some line after the header.
pub proof fn lemma_parsed_ended_needs_tag(t: Seq<char>, p: PlaylistV)
    requires
        spec_parse(t) == Ok::<PlaylistV, ParseError>(p),
        p.ended,
    ensures
        exists|i: int|
            1 <= i < spec_lines(t).len() && has_sub(#[trigger] spec_lines(t)[i], "#EXT-X-ENDLIST"@),
{
    let tail = spec_lines(t).drop_first();
    lemma_ended_needs_tag(tail);
    let i = choose|i: int|
        0 <= i < tail.len() && has_sub(#[trigger] tail[i], "#EXT-X-ENDLIST"@);
    assert(tail[i] == spec_lines(t)[i + 1]);
    assert(has_sub(spec_lines(t)[i + 1], "#EXT-X-ENDLIST"@));
}

/// The header check comes first and short-circuits: a missing or
/// mismatched header line is reported as such whatever follows, and the
/// missing-version error arises only under a good header.
pub proof fn lemma_header_checked_first(t: Seq<char>)
    ensures
        (spec_lines(t).len() == 0 || spec_lines(t)[0] != "#EXTM3U"@) <==> spec_parse(t)
            == Err::<PlaylistV, ParseError>(ParseError::MissingHeader),
        spec_parse(t) == Err::<PlaylistV, ParseError>(ParseError::MissingVersion)
            ==> spec_lines(t).len() > 0 && spec_lines(t)[0] == "#EXTM3U"@
            && scan(spec_lines(t).drop_first()).version is None,
{
}

} // verus!
