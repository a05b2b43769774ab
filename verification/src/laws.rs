use vstd::prelude::*;
use crate::fmt::dec_str;
use crate::fmt::lemma_dec_str_len;
use crate::fmt::lemma_dec_str_len_upper;
use crate::fmt::lemma_time_str_len;
use crate::fmt::lemma_zero_pad_len;
use crate::fmt::pow10;
use crate::fmt::time_str;
use crate::fmt::zero_pad;
use crate::reader::Mark;
use crate::reader::PlayItemV;
use crate::reader::spec_parse_playlist;
use crate::timeline::M2tsV;
use crate::timeline::build_units;
use crate::timeline::derive_plain;
use crate::timeline::derive_segment;
use crate::timeline::merge_walk;
use crate::fmt::path_str;
use crate::timeline::rebase_chapters;
use crate::timeline::retained;
use crate::timeline::selected_marks;
use crate::timeline::spec_build_timeline;

verus! {

/// The reader is a pure function of the file's bytes: reading the same
/// bytes twice yields identical tables, item for item and mark for mark.
pub proof fn lemma_reader_deterministic(b1: Seq<u8>, b2: Seq<u8>)
    requires
        b1 == b2,
    ensures
        spec_parse_playlist(b1) == spec_parse_playlist(b2),
{
}

/// The canonical text of any non-negative duration is at least 18
/// characters: it can never be the 11-character zero literal that the
/// retention rule tests against, so that test never rejects a derived
/// unit.
pub proof fn lemma_retention_zero_text_vacuous(v: int)
    requires
        v >= 0,
    ensures
        time_str(v) != "00:00:00.00"@,
{
    lemma_time_str_len(v);
    reveal_strlit("00:00:00.00");
    assert(time_str(v).len() >= 18);
    assert("00:00:00.00"@.len() == 11);
}

/// Offset invariant: when the first chapter mark does not lag behind the
/// segment's in-time, the offset rule anchors the first chapter exactly at
/// zero, in value and in text.
pub proof fn lemma_offset_invariant(item: PlayItemV, sel: Seq<Mark>)
    requires
        sel.len() > 0,
        sel[0].timestamp <= item.in_time,
    ensures
        derive_plain(item, sel)[0].start_duration == 0,
        derive_plain(item, sel)[0].start == time_str(0),
{
}

/// Every unit that the builder retains came from one segment, carries that
/// segment's id and path, and holds that segment's derived chapters; one
/// unit per retained segment, in play-item order.  From the `k`-th segment
/// on.
pub proof fn lemma_build_units_shape(
    items: Seq<PlayItemV>,
    marks: Seq<Mark>,
    only: Option<(int, int)>,
    merge_requested: bool,
    k: int,
)
    requires
        0 <= k <= items.len(),
    ensures
        forall|j: int|
            0 <= j < build_units(items, marks, only, merge_requested, k).len() ==> exists|i: int|
                k <= i < items.len() && #[trigger] build_units(items, marks, only, merge_requested, k)[j]
                    == (M2tsV {
                    id: items[i].id,
                    path: path_str(items[i].id as int, items[i].codec),
                    chapters: derive_segment(items[i], marks, i, only),
                }) && retained(derive_segment(items[i], marks, i, only), merge_requested),
    decreases items.len() - k,
{
    if k < items.len() {
        lemma_build_units_shape(items, marks, only, merge_requested, k + 1);
        let chs = derive_segment(items[k], marks, k, only);
        let rest = build_units(items, marks, only, merge_requested, k + 1);
        if retained(chs, merge_requested) {
            let whole = build_units(items, marks, only, merge_requested, k);
            assert forall|j: int| 0 <= j < whole.len() implies exists|i: int|
                k <= i < items.len() && #[trigger] whole[j] == (M2tsV {
                    id: items[i].id,
                    path: path_str(items[i].id as int, items[i].codec),
                    chapters: derive_segment(items[i], marks, i, only),
                }) && retained(derive_segment(items[i], marks, i, only), merge_requested) by {
                if j == 0 {
                    assert(whole[0] == M2tsV {
                        id: items[k].id,
                        path: path_str(items[k].id as int, items[k].codec),
                        chapters: derive_segment(items[k], marks, k, only),
                    });
                } else {
                    assert(whole[j] == rest[j - 1]);
                }
            }
        }
    }
}

/// Discard rule, first half: without a merge request, no unit with exactly
/// one derived chapter (nor an empty one) is ever present in the output.
pub proof fn lemma_discard_without_merge(
    items: Seq<PlayItemV>,
    marks: Seq<Mark>,
    only: Option<(int, int)>,
)
    ensures
        forall|j: int|
            0 <= j < spec_build_timeline(items, marks, None, only).len()
                ==> #[trigger] spec_build_timeline(items, marks, None, only)[j].chapters.len()
                >= 2,
{
    lemma_build_units_shape(items, marks, only, false, 0);
}

/// Discard rule, second half: with a merge request, every segment whose
/// derivation yields chapters at all — a single one included — stands in
/// the retained list that the merge walks, with its id, path and chapters.
pub proof fn lemma_retained_under_merge(items: Seq<PlayItemV>, marks: Seq<Mark>, i: int)
    requires
        0 <= i < items.len(),
        derive_segment(items[i], marks, i, None).len() >= 1,
    ensures
        exists|j: int|
            0 <= j < build_units(items, marks, None, true, 0).len()
                && #[trigger] build_units(items, marks, None, true, 0)[j] == (M2tsV {
                id: items[i].id,
                path: path_str(items[i].id as int, items[i].codec),
                chapters: derive_segment(items[i], marks, i, None),
            }),
{
    let chs = derive_segment(items[i], marks, i, None);
    assert(retained(chs, true)) by {
        let sel = selected_marks(marks, i);
        assert(sel.len() > 0);
        assert(chs == derive_plain(items[i], sel));
        assert(chs[0].start == time_str(chs[0].start_duration));
        assert(chs[0].start_duration >= 0);
        lemma_retention_zero_text_vacuous(chs[0].start_duration);
    };
    lemma_retained_prefix(items, marks, i, 0);
}

/// Helper for the merge half of the discard rule: walking the unit
/// construction from any point at or before the segment keeps the
/// segment's unit in the result.
proof fn lemma_retained_prefix(items: Seq<PlayItemV>, marks: Seq<Mark>, i: int, k: int)
    requires
        0 <= k <= i < items.len(),
        retained(derive_segment(items[i], marks, i, None), true),
    ensures
        exists|j: int|
            0 <= j < build_units(items, marks, None, true, k).len()
                && #[trigger] build_units(items, marks, None, true, k)[j] == (M2tsV {
                id: items[i].id,
                path: path_str(items[i].id as int, items[i].codec),
                chapters: derive_segment(items[i], marks, i, None),
            }),
    decreases i - k,
{
    let target = M2tsV {
        id: items[i].id,
        path: path_str(items[i].id as int, items[i].codec),
        chapters: derive_segment(items[i], marks, i, None),
    };
    if k == i {
        assert(build_units(items, marks, None, true, k)[0] == target);
    } else {
        lemma_retained_prefix(items, marks, i, k + 1);
        let rest = build_units(items, marks, None, true, k + 1);
        let j0 = choose|j: int| 0 <= j < rest.len() && #[trigger] rest[j] == target;
        let chs = derive_segment(items[k], marks, k, None);
        if retained(chs, true) {
            assert(build_units(items, marks, None, true, k)[j0 + 1] == target);
        } else {
            assert(build_units(items, marks, None, true, k)[j0] == target);
        }
    }
}

/// Round trip: when every segment selects at least two chapter marks and
/// neither transformation is set, the builder emits one unit per play item,
/// in order, and the unit of each segment holds exactly as many intervals
/// as the segment has marks (the boundaries between consecutive marks plus
/// the final segment-end interval).
pub proof fn lemma_round_trip_counts(items: Seq<PlayItemV>, marks: Seq<Mark>)
    requires
        forall|i: int| 0 <= i < items.len() ==> selected_marks(marks, i).len() >= 2,
    ensures
        spec_build_timeline(items, marks, None, None).len() == items.len(),
        forall|i: int|
            0 <= i < items.len() ==> #[trigger] spec_build_timeline(items, marks, None, None)[i]
                == (M2tsV {
                id: items[i].id,
                path: path_str(items[i].id as int, items[i].codec),
                chapters: derive_plain(items[i], selected_marks(marks, i)),
            }),
        forall|i: int|
            0 <= i < items.len() ==> #[trigger] spec_build_timeline(
                items,
                marks,
                None,
                None,
            )[i].chapters.len() == selected_marks(marks, i).len(),
{
    lemma_round_trip_from(items, marks, 0);
    let whole = spec_build_timeline(items, marks, None, None);
    assert(whole == build_units(items, marks, None, false, 0));
    assert forall|i: int| 0 <= i < items.len() implies #[trigger] whole[i] == (M2tsV {
        id: items[i].id,
        path: path_str(items[i].id as int, items[i].codec),
        chapters: derive_plain(items[i], selected_marks(marks, i)),
    }) by {
        assert(build_units(items, marks, None, false, 0)[i - 0] == M2tsV {
            id: items[i].id,
            path: path_str(items[i].id as int, items[i].codec),
            chapters: derive_plain(items[i], selected_marks(marks, i)),
        });
    }
}

/// Helper for the round trip: the tail of the unit construction, one unit
/// per remaining segment.
proof fn lemma_round_trip_from(items: Seq<PlayItemV>, marks: Seq<Mark>, k: int)
    requires
        0 <= k <= items.len(),
        forall|i: int| 0 <= i < items.len() ==> selected_marks(marks, i).len() >= 2,
    ensures
        build_units(items, marks, None, false, k).len() == items.len() - k,
        forall|i: int|
            k <= i < items.len() ==> #[trigger] build_units(items, marks, None, false, k)[i - k]
                == (M2tsV {
                id: items[i].id,
                path: path_str(items[i].id as int, items[i].codec),
                chapters: derive_plain(items[i], selected_marks(marks, i)),
            }),
    decreases items.len() - k,
{
    if k < items.len() {
        lemma_round_trip_from(items, marks, k + 1);
        let sel = selected_marks(marks, k);
        let chs = derive_segment(items[k], marks, k, None);
        assert(chs == derive_plain(items[k], sel));
        assert(chs.len() == sel.len());
        assert(retained(chs, false)) by {
            assert(chs[0].start == time_str(chs[0].start_duration));
            lemma_retention_zero_text_vacuous(chs[0].start_duration);
        };
        let whole = build_units(items, marks, None, false, k);
        let rest = build_units(items, marks, None, false, k + 1);
        assert forall|i: int| k <= i < items.len() implies #[trigger] whole[i - k] == (M2tsV {
            id: items[i].id,
            path: path_str(items[i].id as int, items[i].codec),
            chapters: derive_plain(items[i], selected_marks(marks, i)),
        }) by {
            if i > k {
                assert(whole[i - k] == rest[i - k - 1]);
                assert(rest[i - (k + 1)] == M2tsV {
                    id: items[i].id,
                    path: path_str(items[i].id as int, items[i].codec),
                    chapters: derive_plain(items[i], selected_marks(marks, i)),
                });
            }
        }
    }
}

/// Merge additivity: for a two-segment merge whose second segment starts
/// at zero (the offset invariant gives that), the first re-emitted chapter
/// of the second segment starts exactly at the first segment's last
/// chapter end — as a duration, and its text is the canonical form of that
/// very duration: nothing is ever re-parsed from text.
pub proof fn lemma_merge_additivity(u1: M2tsV, u2: M2tsV, first_id: u16, last_id: u16)
    requires
        u1.chapters.len() > 0,
        u2.chapters.len() > 0,
        u1.id == first_id,
        u2.id == last_id,
        first_id != last_id,
        u2.chapters[0].start_duration == 0,
    ensures
        ({
            let merged = merge_walk(seq![u1, u2], first_id, last_id, 0, false, Seq::empty(), 0);
            let cumulative = u1.chapters.last().end_duration;
            merged.len() == 1 && merged[0].id == u2.id && merged[0].path == u2.path
                && merged[0].chapters == u1.chapters + rebase_chapters(
                u2.chapters,
                cumulative,
                u1.chapters.len() as int,
            ) && merged[0].chapters[u1.chapters.len() as int].start_duration == cumulative
                && merged[0].chapters[u1.chapters.len() as int].start == time_str(cumulative)
        }),
{
    let units = seq![u1, u2];
    let le = u1.chapters.last().end_duration;
    assert(Seq::<crate::timeline::XMLChapterV>::empty() + u1.chapters =~= u1.chapters);
    assert(merge_walk(units, first_id, last_id, 0, false, Seq::empty(), 0) == merge_walk(
        units,
        first_id,
        last_id,
        1,
        true,
        u1.chapters,
        le,
    ));
    let reb = rebase_chapters(u2.chapters, le, u1.chapters.len() as int);
    assert(merge_walk(units, first_id, last_id, 1, true, u1.chapters, le) == seq![
        M2tsV { id: u2.id, path: u2.path, chapters: u1.chapters + reb },
    ]);
    assert((u1.chapters + reb)[u1.chapters.len() as int] == reb[0]);
}

/// The canonical text always carries exactly nine fractional digits: the
/// nanosecond remainder zero-padded, after a dot.  A single tick, 1/45000
/// of a second, therefore never rounds to zero nor spills into the seconds
/// field.
pub proof fn lemma_time_str_fraction(v: int)
    requires
        v >= 0,
    ensures
        time_str(v).len() >= 18,
        zero_pad(dec_str(v % 1_000_000_000), 9).len() == 9,
        time_str(v).skip(time_str(v).len() - 9) == zero_pad(dec_str(v % 1_000_000_000), 9),
        time_str(v)[time_str(v).len() - 10] == '.',
{
    lemma_time_str_len(v);
    let frac = v % 1_000_000_000;
    assert(pow10(9) == 1_000_000_000) by {
        reveal_with_fuel(pow10, 10);
    };
    lemma_dec_str_len_upper(frac, 9);
    lemma_dec_str_len(frac);
    lemma_zero_pad_len(dec_str(frac), 9);
    let s = time_str(v);
    let total = v / 1_000_000_000;
    let prefix = zero_pad(dec_str(total / 60 / 60), 2) + seq![':'] + zero_pad(
        dec_str(total / 60 % 60),
        2,
    ) + seq![':'] + zero_pad(dec_str(total % 60), 2);
    assert(s =~= prefix + seq!['.'] + zero_pad(dec_str(frac), 9));
    assert(s.skip(s.len() - 9) =~= zero_pad(dec_str(frac), 9));
    assert(s[s.len() - 10] == '.');
}

} // verus!
