use vstd::prelude::*;
use crate::fmt::make_path;
use crate::fmt::make_title;
use crate::fmt::duration_to_string;
use crate::fmt::path_str;
use crate::fmt::time_str;
use crate::fmt::title_str;
use crate::reader::Mark;
use crate::reader::PlayItem;
use crate::reader::PlayItemV;
use crate::reader::ReadError;
use crate::reader::be16;
use crate::reader::be32;
use crate::reader::lemma_play_items_count;
use crate::reader::parse_playlist;
use crate::reader::spec_parse_playlist;
use crate::time::Duration;
use crate::time::dur_of_ticks;
use crate::time::lemma_dur_of_ticks_bound;
use crate::time::max_tick_nanos;
use crate::time::ticks_to_duration;

verus! {

/// One chapter interval: a synthesized title, the canonical start and end
/// texts, and the same boundaries as durations.
#[derive(Debug, Clone)]
pub struct XMLChapter {
    pub title: String,
    pub start: String,
    pub end: String,
    pub start_duration: Duration,
    pub end_duration: Duration,
}

/// The mathematical image of a chapter: texts as character sequences,
/// boundaries as nanosecond counts.
pub ghost struct XMLChapterV {
    pub title: Seq<char>,
    pub start: Seq<char>,
    pub end: Seq<char>,
    pub start_duration: int,
    pub end_duration: int,
}

impl View for XMLChapter {
    type V = XMLChapterV;

    open spec fn view(&self) -> XMLChapterV {
        XMLChapterV {
            title: self.title@,
            start: self.start@,
            end: self.end@,
            start_duration: self.start_duration@,
            end_duration: self.end_duration@,
        }
    }
}

/// One output unit: the chapters of one media segment (or of one merged
/// run of segments), keyed by the destination path stem.
#[derive(Debug, Clone)]
pub struct M2ts {
    pub id: u16,
    pub path: String,
    pub chapters: Vec<XMLChapter>,
}

/// The mathematical image of an output unit.
pub ghost struct M2tsV {
    pub id: u16,
    pub path: Seq<char>,
    pub chapters: Seq<XMLChapterV>,
}

impl View for M2ts {
    type V = M2tsV;

    open spec fn view(&self) -> M2tsV {
        M2tsV {
            id: self.id,
            path: self.path@,
            chapters: self.chapters@.map_values(|c: XMLChapter| c@),
        }
    }
}

/// The marks that drive one segment's chapters: chapter-type marks (type
/// 1) whose reference names the segment's position in the play-item table.
pub open spec fn selected_marks(marks: Seq<Mark>, idx: int) -> Seq<Mark> {
    marks.filter(|m: Mark| m.mark_type == 1 && m.segment_ref == idx)
}

/// Chapter zero is anchored to the true start of playback: the smaller of
/// the first chapter mark and the segment's in-time.
pub open spec fn seg_offset(item: PlayItemV, sel: Seq<Mark>) -> u32
    recommends
        sel.len() > 0,
{
    if item.in_time < sel[0].timestamp {
        item.in_time
    } else {
        sel[0].timestamp
    }
}

/// A tick count re-based against the segment offset, as nanoseconds.
/// A mark that lies before the offset clamps to zero (marks are ascending
/// in well-formed files, so only the offset rule itself ever bites).
pub open spec fn rel_nanos(ts: u32, offset: u32) -> int {
    if ts >= offset {
        dur_of_ticks(ts - offset)
    } else {
        0
    }
}

/// A chapter with the given title text and boundaries; the texts are the
/// canonical forms of the boundaries.
pub open spec fn titled_chapter(title: Seq<char>, sd: int, ed: int) -> XMLChapterV {
    XMLChapterV { title, start: time_str(sd), end: time_str(ed), start_duration: sd, end_duration: ed }
}

/// The chapter numbered `n`, counted from one.
pub open spec fn chapter_of(n: int, sd: int, ed: int) -> XMLChapterV {
    titled_chapter(title_str(n), sd, ed)
}

/// The plain chapter list of one segment: one interval per consecutive
/// pair of selected marks, then a final interval from the last mark to the
/// segment's out-time, all re-based against the segment offset.
pub open spec fn derive_plain(item: PlayItemV, sel: Seq<Mark>) -> Seq<XMLChapterV>
    recommends
        sel.len() > 0,
{
    let offset = seg_offset(item, sel);
    Seq::new(
        sel.len(),
        |i: int|
            chapter_of(
                i + 1,
                rel_nanos(sel[i].timestamp, offset),
                if i + 1 < sel.len() {
                    rel_nanos(sel[i + 1].timestamp, offset)
                } else {
                    rel_nanos(item.out_time, offset)
                },
            ),
    )
}

/// The executable-side well-formedness of a chapter: its duration fields
/// carry normalized nanosecond parts.
pub open spec fn chapter_wf(c: XMLChapter) -> bool {
    c.start_duration.wf() && c.end_duration.wf()
}

/// A chapter whose boundaries came from 32-bit tick counts.
pub open spec fn chapter_tick_bounded(c: XMLChapterV) -> bool {
    0 <= c.start_duration < max_tick_nanos() && 0 <= c.end_duration < max_tick_nanos()
}

/// Selects the chapter marks of the segment at `idx`.
fn select_marks(marks: &Vec<Mark>, idx: u16) -> (r: Vec<Mark>)
    ensures
        r@ == selected_marks(marks@, idx as int),
{
    let mut r: Vec<Mark> = Vec::new();
    let mut i: usize = 0;
    while i < marks.len()
        invariant
            i <= marks@.len(),
            r@ == marks@.take(i as int).filter(
                |m: Mark| m.mark_type == 1 && m.segment_ref == idx as int,
            ),
        decreases marks@.len() - i,
    {
        let m = marks[i];
        proof {
            assert(marks@.take(i as int + 1) =~= marks@.take(i as int).push(m));
            marks@.take(i as int).lemma_filter_push(
                m,
                |m2: Mark| m2.mark_type == 1 && m2.segment_ref == idx as int,
            );
        }
        if m.mark_type == 1 && m.segment_ref == idx {
            r.push(m);
        }
        i = i + 1;
    }
    proof {
        assert(marks@.take(marks@.len() as int) =~= marks@);
    }
    r
}

/// Derives one segment's plain chapter list from its selected marks.
#[verifier::loop_isolation(false)]
fn derive_plain_exec(item: &PlayItem, sel: &Vec<Mark>) -> (r: Vec<XMLChapter>)
    requires
        sel@.len() > 0,
    ensures
        r@.map_values(|c: XMLChapter| c@) == derive_plain(item@, sel@),
        forall|i: int| 0 <= i < r@.len() ==> chapter_wf(#[trigger] r@[i]) && chapter_tick_bounded(
            r@[i]@,
        ),
{
    let offset: u32 = if item.in_time < sel[0].timestamp {
        item.in_time
    } else {
        sel[0].timestamp
    };
    let n = sel.len();
    let mut r: Vec<XMLChapter> = Vec::new();
    let mut i: usize = 0;
    while i < n
        invariant
            i <= n,
            r@.len() == i,
            forall|j: int| 0 <= j < i ==> #[trigger] r@[j]@ == derive_plain(item@, sel@)[j],
            forall|j: int| 0 <= j < i ==> chapter_wf(#[trigger] r@[j]) && chapter_tick_bounded(
                r@[j]@,
            ),
        decreases n - i,
    {
        let sd = rel_duration(sel[i].timestamp, offset);
        let ed = if i + 1 < n {
            rel_duration(sel[i + 1].timestamp, offset)
        } else {
            rel_duration(item.out_time, offset)
        };
        let title = make_title((i as u64) + 1);
        let start = duration_to_string(sd);
        let end = duration_to_string(ed);
        let ch = XMLChapter { title, start, end, start_duration: sd, end_duration: ed };
        assert(ch@ == derive_plain(item@, sel@)[i as int]);
        r.push(ch);
        i = i + 1;
    }
    assert(r@.map_values(|c: XMLChapter| c@) =~= derive_plain(item@, sel@));
    r
}

/// Subtraction clamped at zero, the ghost image of
/// `Duration::saturating_sub`.
pub open spec fn sub_clamp(a: int, b: int) -> int {
    if a >= b {
        a - b
    } else {
        0
    }
}

/// The sub-range ("only") walk over one segment's candidate intervals,
/// from the `k`-th on.  An interval whose end reaches the window's upper
/// bound is emitted clipped to it and ends the walk; once an interval has
/// reached the lower bound, every interval is emitted re-based by that
/// bound; a final interval that ends exactly at the lower bound marks an
/// empty window.  Titles keep their original numbering.
pub open spec fn only_walk(
    chs: Seq<XMLChapterV>,
    from: int,
    to: int,
    recording: bool,
    k: int,
) -> Seq<XMLChapterV>
    decreases chs.len() - k,
{
    if k < 0 || k >= chs.len() {
        Seq::empty()
    } else {
        let c = chs[k];
        if k == chs.len() - 1 && c.end_duration == from {
            Seq::empty()
        } else if c.end_duration >= to {
            seq![
                titled_chapter(c.title, sub_clamp(c.start_duration, from), sub_clamp(to, from)),
            ]
        } else if recording || c.start_duration >= from {
            seq![
                titled_chapter(
                    c.title,
                    sub_clamp(c.start_duration, from),
                    sub_clamp(c.end_duration, from),
                ),
            ] + only_walk(chs, from, to, true, k + 1)
        } else {
            only_walk(chs, from, to, recording, k + 1)
        }
    }
}

/// Whether `a` denotes at least as much time as `b`.
fn dur_ge(a: Duration, b: Duration) -> (r: bool)
    requires
        a.wf(),
        b.wf(),
    ensures
        r == (a@ >= b@),
{
    a.secs > b.secs || (a.secs == b.secs && a.nanos >= b.nanos)
}

/// Whether `a` and `b` denote the same time.
fn dur_eq(a: Duration, b: Duration) -> (r: bool)
    requires
        a.wf(),
        b.wf(),
    ensures
        r == (a@ == b@),
{
    a.secs == b.secs && a.nanos == b.nanos
}

/// A copy of a chapter, field for field.
fn clone_chapter(c: &XMLChapter) -> (r: XMLChapter)
    ensures
        r@ == c@,
        chapter_wf(*c) ==> chapter_wf(r),
{
    XMLChapter {
        title: c.title.clone(),
        start: c.start.clone(),
        end: c.end.clone(),
        start_duration: c.start_duration,
        end_duration: c.end_duration,
    }
}

/// Applies the sub-range walk to one segment's chapter list.
#[verifier::loop_isolation(false)]
fn only_walk_exec(chs: &Vec<XMLChapter>, from: Duration, to: Duration) -> (r: Vec<XMLChapter>)
    requires
        from.wf(),
        to.wf(),
        forall|i: int| 0 <= i < chs@.len() ==> chapter_wf(#[trigger] chs@[i]),
    ensures
        r@.map_values(|c: XMLChapter| c@) == only_walk(
            chs@.map_values(|c: XMLChapter| c@),
            from@,
            to@,
            false,
            0,
        ),
        forall|i: int| 0 <= i < r@.len() ==> chapter_wf(#[trigger] r@[i]),
        r@.len() <= chs@.len(),
{
    let ghost gchs = chs@.map_values(|c: XMLChapter| c@);
    let n = chs.len();
    let mut out: Vec<XMLChapter> = Vec::new();
    let mut recording = false;
    let mut k: usize = 0;
    while k < n
        invariant
            k <= n,
            out@.len() <= k,
            forall|i: int| 0 <= i < out@.len() ==> chapter_wf(#[trigger] out@[i]),
            only_walk(gchs, from@, to@, false, 0) =~= out@.map_values(|c: XMLChapter| c@)
                + only_walk(gchs, from@, to@, recording, k as int),
        decreases n - k,
    {
        let ghost out_before = out@;
        let c = &chs[k];
        if k == n - 1 && dur_eq(c.end_duration, from) {
            proof {
                assert(only_walk(gchs, from@, to@, recording, k as int) =~= Seq::empty());
                assert(only_walk(gchs, from@, to@, false, 0) =~= out@.map_values(
                    |c2: XMLChapter| c2@,
                ));
            }
            return out;
        }
        if dur_ge(c.end_duration, to) {
            let sd = c.start_duration.saturating_sub(from);
            let ed = to.saturating_sub(from);
            let ch = XMLChapter {
                title: c.title.clone(),
                start: duration_to_string(sd),
                end: duration_to_string(ed),
                start_duration: sd,
                end_duration: ed,
            };
            assert(ch@ == titled_chapter(
                gchs[k as int].title,
                sub_clamp(gchs[k as int].start_duration, from@),
                sub_clamp(to@, from@),
            ));
            out.push(ch);
            proof {
                assert(out@.map_values(|c2: XMLChapter| c2@) =~= out_before.map_values(
                    |c2: XMLChapter| c2@,
                ) + only_walk(gchs, from@, to@, recording, k as int));
                assert(only_walk(gchs, from@, to@, false, 0) =~= out@.map_values(
                    |c2: XMLChapter| c2@,
                ));
            }
            return out;
        }
        if recording || dur_ge(c.start_duration, from) {
            let sd = c.start_duration.saturating_sub(from);
            let ed = c.end_duration.saturating_sub(from);
            let ch = XMLChapter {
                title: c.title.clone(),
                start: duration_to_string(sd),
                end: duration_to_string(ed),
                start_duration: sd,
                end_duration: ed,
            };
            out.push(ch);
            proof {
                assert(out@.map_values(|c2: XMLChapter| c2@) =~= out_before.map_values(
                    |c2: XMLChapter| c2@,
                ).push(ch@));
            }
            recording = true;
        }
        k = k + 1;
    }
    proof {
        assert(only_walk(gchs, from@, to@, recording, n as int) =~= Seq::empty());
        assert(only_walk(gchs, from@, to@, false, 0) =~= out@.map_values(|c2: XMLChapter| c2@));
    }
    out
}

/// Re-bases one tick count against the segment offset.
fn rel_duration(ts: u32, offset: u32) -> (r: Duration)
    ensures
        r.wf(),
        r@ == rel_nanos(ts, offset),
        0 <= r@ < max_tick_nanos(),
{
    proof {
        if ts >= offset {
            lemma_dur_of_ticks_bound(ts - offset);
        }
    }
    if ts >= offset {
        ticks_to_duration(ts - offset)
    } else {
        Duration::zero()
    }
}

/// One segment's chapter list before the retention rule: nothing when the
/// segment has no chapter marks; otherwise the plain derivation, put
/// through the sub-range walk when a window is set.
pub open spec fn derive_segment(
    item: PlayItemV,
    marks: Seq<Mark>,
    idx: int,
    only: Option<(int, int)>,
) -> Seq<XMLChapterV> {
    let sel = selected_marks(marks, idx);
    if sel.len() == 0 {
        Seq::empty()
    } else {
        let base = derive_plain(item, sel);
        match only {
            None => base,
            Some(ft) => only_walk(base, ft.0, ft.1, false, 0),
        }
    }
}

/// The retention rule: a unit is kept only when it has chapters at all,
/// when a merge is requested or more than one chapter was found (a single
/// interval means no boundary was actually found), and when its first
/// chapter does not carry the zero timestamp text.  The canonical text is
/// never that short, so the last test never rejects a derived unit; it
/// stands for fidelity to the rule as stated.
pub open spec fn retained(chs: Seq<XMLChapterV>, merge_requested: bool) -> bool {
    chs.len() > 0 && (merge_requested || chs.len() != 1) && chs[0].start != "00:00:00.00"@
}

/// The retained units of every segment from the `k`-th on, in play-item
/// order.
pub open spec fn build_units(
    items: Seq<PlayItemV>,
    marks: Seq<Mark>,
    only: Option<(int, int)>,
    merge_requested: bool,
    k: int,
) -> Seq<M2tsV>
    decreases items.len() - k,
{
    if k < 0 || k >= items.len() {
        Seq::empty()
    } else {
        let chs = derive_segment(items[k], marks, k, only);
        let rest = build_units(items, marks, only, merge_requested, k + 1);
        if retained(chs, merge_requested) {
            seq![
                M2tsV {
                    id: items[k].id,
                    path: path_str(items[k].id as int, items[k].codec),
                    chapters: chs,
                },
            ] + rest
        } else {
            rest
        }
    }
}

/// The chapters of a later merged segment, re-based by the running end
/// `base` and re-titled to continue the count from `start_n`.
pub open spec fn rebase_chapters(chs: Seq<XMLChapterV>, base: int, start_n: int) -> Seq<
    XMLChapterV,
> {
    Seq::new(
        chs.len(),
        |i: int|
            chapter_of(
                start_n + i + 1,
                chs[i].start_duration + base,
                chs[i].end_duration + base,
            ),
    )
}

/// The merge walk over the retained units, from the `k`-th on.  The unit
/// matching the first id starts the recording with its chapters verbatim;
/// each later unit is re-emitted re-based by the running cumulative end;
/// the unit matching the last id closes the merge and keys the single
/// merged unit.  When the last id never arrives, nothing comes out.
pub open spec fn merge_walk(
    units: Seq<M2tsV>,
    first_id: u16,
    last_id: u16,
    k: int,
    recording: bool,
    acc: Seq<XMLChapterV>,
    last_end: int,
) -> Seq<M2tsV>
    decreases units.len() - k,
{
    if k < 0 || k >= units.len() {
        Seq::empty()
    } else {
        let u = units[k];
        if u.id == first_id {
            merge_walk(
                units,
                first_id,
                last_id,
                k + 1,
                true,
                acc + u.chapters,
                if u.chapters.len() > 0 {
                    u.chapters.last().end_duration
                } else {
                    last_end
                },
            )
        } else {
            let acc2 = if recording {
                acc + rebase_chapters(u.chapters, last_end, acc.len() as int)
            } else {
                acc
            };
            let le2 = if recording {
                if u.chapters.len() > 0 {
                    acc2.last().end_duration
                } else {
                    0
                }
            } else {
                last_end
            };
            if u.id == last_id {
                seq![M2tsV { id: u.id, path: u.path, chapters: acc2 }]
            } else {
                merge_walk(units, first_id, last_id, k + 1, recording, acc2, le2)
            }
        }
    }
}

/// The executable-side well-formedness of a unit handed to the merge: at
/// least one chapter (the retention rule guarantees it), normalized
/// duration fields, and no more chapters than the mark table can hold.
pub open spec fn unit_exec_wf(u: M2ts) -> bool {
    u.chapters@.len() > 0 && u.chapters@.len() <= 65535 && forall|i: int|
        0 <= i < u.chapters@.len() ==> chapter_wf(#[trigger] u.chapters@[i])
}

/// A unit whose chapter boundaries all came from 32-bit tick counts.
pub open spec fn unit_tick_bounded(u: M2tsV) -> bool {
    forall|i: int| 0 <= i < u.chapters.len() ==> chapter_tick_bounded(#[trigger] u.chapters[i])
}

/// Appends field-for-field copies of a unit's chapters.
#[verifier::loop_isolation(false)]
fn append_verbatim(acc: &mut Vec<XMLChapter>, u: &M2ts)
    requires
        forall|i: int| 0 <= i < old(acc)@.len() ==> chapter_wf(#[trigger] old(acc)@[i]),
        forall|i: int|
            0 <= i < u.chapters@.len() ==> chapter_wf(#[trigger] u.chapters@[i]),
    ensures
        final(acc)@.map_values(|c: XMLChapter| c@) == old(acc)@.map_values(|c: XMLChapter| c@)
            + u@.chapters,
        final(acc)@.len() == old(acc)@.len() + u.chapters@.len(),
        forall|i: int|
            0 <= i < old(acc)@.len() ==> #[trigger] final(acc)@[i] == old(acc)@[i],
        forall|i: int|
            0 <= i < final(acc)@.len() ==> chapter_wf(#[trigger] final(acc)@[i]),
{
    let ghost acc0 = acc@.map_values(|c: XMLChapter| c@);
    let ghost uch = u@.chapters;
    let mut ci: usize = 0;
    while ci < u.chapters.len()
        invariant
            ci <= u.chapters@.len(),
            acc@.len() == old(acc)@.len() + ci,
            acc@.map_values(|c: XMLChapter| c@) =~= acc0 + uch.take(ci as int),
            forall|i: int| 0 <= i < old(acc)@.len() ==> #[trigger] acc@[i] == old(acc)@[i],
            forall|i: int| 0 <= i < acc@.len() ==> chapter_wf(#[trigger] acc@[i]),
        decreases u.chapters@.len() - ci,
    {
        let ghost am0 = acc@.map_values(|c: XMLChapter| c@);
        let ch = clone_chapter(&u.chapters[ci]);
        let ghost chv = ch@;
        assert(chv == uch[ci as int]);
        acc.push(ch);
        proof {
            assert(acc@.map_values(|c: XMLChapter| c@) =~= am0.push(chv));
            assert(am0.push(chv) =~= acc0 + uch.take(ci as int + 1));
        }
        ci = ci + 1;
    }
    proof {
        assert(uch.take(uch.len() as int) =~= uch);
        assert(acc@.map_values(|c: XMLChapter| c@) =~= acc0 + uch);
    }
}

/// Appends a later merged unit's chapters, re-based by the running
/// cumulative end and re-titled to continue the count.
#[verifier::loop_isolation(false)]
fn append_rebased(acc: &mut Vec<XMLChapter>, u: &M2ts, last_end: Duration)
    requires
        forall|i: int| 0 <= i < old(acc)@.len() ==> chapter_wf(#[trigger] old(acc)@[i]),
        forall|i: int|
            0 <= i < u.chapters@.len() ==> chapter_wf(#[trigger] u.chapters@[i]),
        unit_tick_bounded(u@),
        last_end.wf(),
        0 <= last_end@ <= 65536 * 95_445_000_000_000,
        old(acc)@.len() + u.chapters@.len() <= 0x1_0000_0000,
    ensures
        final(acc)@.map_values(|c: XMLChapter| c@) == old(acc)@.map_values(|c: XMLChapter| c@)
            + rebase_chapters(u@.chapters, last_end@, old(acc)@.len() as int),
        final(acc)@.len() == old(acc)@.len() + u.chapters@.len(),
        forall|i: int|
            0 <= i < old(acc)@.len() ==> #[trigger] final(acc)@[i] == old(acc)@[i],
        forall|i: int|
            0 <= i < final(acc)@.len() ==> chapter_wf(#[trigger] final(acc)@[i]),
{
    let ghost acc0 = acc@.map_values(|c: XMLChapter| c@);
    let ghost uch = u@.chapters;
    let ghost reb = rebase_chapters(uch, last_end@, acc0.len() as int);
    let mut ci: usize = 0;
    while ci < u.chapters.len()
        invariant
            ci <= u.chapters@.len(),
            acc@.len() == old(acc)@.len() + ci,
            acc@.map_values(|c: XMLChapter| c@) =~= acc0 + reb.take(ci as int),
            forall|i: int| 0 <= i < old(acc)@.len() ==> #[trigger] acc@[i] == old(acc)@[i],
            forall|i: int| 0 <= i < acc@.len() ==> chapter_wf(#[trigger] acc@[i]),
        decreases u.chapters@.len() - ci,
    {
        let c = &u.chapters[ci];
        proof {
            assert(chapter_tick_bounded(uch[ci as int]));
            assert(max_tick_nanos() == 95_445_000_000_000);
            assert(c.start_duration.secs < 95445);
            assert(c.end_duration.secs < 95445);
            assert(last_end.secs * 1_000_000_000 <= last_end@);
            assert(last_end.secs <= 65536 * 95445);
        }
        let nstart = c.start_duration.add(last_end);
        let nend = c.end_duration.add(last_end);
        let title = make_title((acc.len() as u64) + 1);
        let ch = XMLChapter {
            title,
            start: duration_to_string(nstart),
            end: duration_to_string(nend),
            start_duration: nstart,
            end_duration: nend,
        };
        let ghost chv = ch@;
        assert(chv == reb[ci as int]);
        let ghost am0 = acc@.map_values(|c2: XMLChapter| c2@);
        acc.push(ch);
        proof {
            assert(acc@.map_values(|c2: XMLChapter| c2@) =~= am0.push(chv));
            assert(am0.push(chv) =~= acc0 + reb.take(ci as int + 1));
        }
        ci = ci + 1;
    }
    proof {
        assert(reb.take(reb.len() as int) =~= reb);
        assert(acc@.map_values(|c: XMLChapter| c@) =~= acc0 + reb);
    }
}

/// Merges the chapters of the units from the one matching `first_id` up
/// to and including the one matching `last_id` into a single unit keyed by
/// the closing unit's path.  Later chapters are re-based by the running
/// cumulative end, as durations: no text is ever re-parsed.  When the
/// closing id never arrives the result is empty.
#[verifier::loop_isolation(false)]
#[verifier::rlimit(60)]
pub fn merge_units(units: Vec<M2ts>, first_id: u16, last_id: u16) -> (r: Vec<M2ts>)
    requires
        units@.len() <= 65536,
        forall|i: int|
            0 <= i < units@.len() ==> unit_exec_wf(#[trigger] units@[i]) && unit_tick_bounded(
                units@[i]@,
            ),
    ensures
        r@.map_values(|u: M2ts| u@) == merge_walk(
            units@.map_values(|u: M2ts| u@),
            first_id,
            last_id,
            0,
            false,
            Seq::empty(),
            0,
        ),
        forall|i: int, j: int|
            0 <= i < r@.len() && 0 <= j < r@[i].chapters@.len() ==> chapter_wf(
                #[trigger] r@[i].chapters@[j],
            ),
{
    let ghost gunits = units@.map_values(|u: M2ts| u@);
    let n = units.len();
    let mut acc: Vec<XMLChapter> = Vec::new();
    let mut record = false;
    let mut last_end = Duration::zero();
    let mut k: usize = 0;
    proof {
        assert(acc@.map_values(|c: XMLChapter| c@) =~= Seq::<XMLChapterV>::empty());
    }
    while k < n
        invariant
            k <= n,
            last_end.wf(),
            0 <= last_end@ <= k as int * 95_445_000_000_000,
            acc@.len() <= k as int * 65535,
            forall|i: int| 0 <= i < acc@.len() ==> chapter_wf(#[trigger] acc@[i]),
            merge_walk(gunits, first_id, last_id, 0, false, Seq::empty(), 0) == merge_walk(
                gunits,
                first_id,
                last_id,
                k as int,
                record,
                acc@.map_values(|c: XMLChapter| c@),
                last_end@,
            ),
        decreases n - k,
    {
        let ghost acc0 = acc@.map_values(|c: XMLChapter| c@);
        let ghost le0 = last_end@;
        let ghost rec0 = record;
        let u = &units[k];
        let ghost uch = gunits[k as int].chapters;
        assert(uch == u@.chapters);
        assert(uch.len() > 0 && uch.len() <= 65535);
        if u.id == first_id {
            append_verbatim(&mut acc, u);
            record = true;
            last_end = acc[acc.len() - 1].end_duration;
            proof {
                assert(acc@.map_values(|c: XMLChapter| c@) == acc0 + uch);
                assert(acc@.map_values(|c: XMLChapter| c@)[acc@.len() - 1] == acc@[acc@.len()
                    - 1]@);
                assert(acc@[acc@.len() - 1]@ == (acc0 + uch).last());
                assert(acc@[acc@.len() - 1]@ == uch.last());
                assert(chapter_tick_bounded(uch.last()));
                assert(max_tick_nanos() == 95_445_000_000_000);
                assert(last_end@ <= (k as int + 1) * 95_445_000_000_000);
                assert(merge_walk(gunits, first_id, last_id, k as int, rec0, acc0, le0)
                    == merge_walk(
                    gunits,
                    first_id,
                    last_id,
                    k as int + 1,
                    true,
                    acc0 + uch,
                    uch.last().end_duration,
                ));
            }
        } else {
            if record {
                let ghost reb = rebase_chapters(uch, le0, acc0.len() as int);
                append_rebased(&mut acc, u, last_end);
                last_end = acc[acc.len() - 1].end_duration;
                proof {
                    assert(acc@.map_values(|c: XMLChapter| c@) == acc0 + reb);
                    assert(reb.len() > 0);
                    assert(acc@.map_values(|c: XMLChapter| c@)[acc@.len() - 1] == acc@[acc@.len()
                        - 1]@);
                    assert(acc@[acc@.len() - 1]@ == (acc0 + reb).last());
                    assert(acc@[acc@.len() - 1]@ == reb.last());
                    assert(reb.last().end_duration == uch.last().end_duration + le0);
                    assert(chapter_tick_bounded(uch.last()));
                    assert(max_tick_nanos() == 95_445_000_000_000);
                    assert(last_end@ <= (k as int + 1) * 95_445_000_000_000);
                }
            }
            if u.id == last_id {
                let unit = M2ts { id: u.id, path: u.path.clone(), chapters: acc };
                let mut out: Vec<M2ts> = Vec::new();
                out.push(unit);
                proof {
                    let gacc = if rec0 {
                        acc0 + rebase_chapters(uch, le0, acc0.len() as int)
                    } else {
                        acc0
                    };
                    assert(out@.map_values(|u2: M2ts| u2@) =~= seq![
                        M2tsV {
                            id: gunits[k as int].id,
                            path: gunits[k as int].path,
                            chapters: gacc,
                        },
                    ]);
                }
                return out;
            }
        }
        k = k + 1;
    }
    let r: Vec<M2ts> = Vec::new();
    proof {
        assert(merge_walk(gunits, first_id, last_id, n as int, record, acc@.map_values(
            |c: XMLChapter| c@,
        ), last_end@) =~= Seq::<M2tsV>::empty());
        assert(r@.map_values(|u2: M2ts| u2@) =~= Seq::<M2tsV>::empty());
    }
    r
}

/// The whole Timeline Builder on one table pair: the retained units, put
/// through the merge walk when a merge range is set.
pub open spec fn spec_build_timeline(
    items: Seq<PlayItemV>,
    marks: Seq<Mark>,
    merge: Option<(u16, u16)>,
    only: Option<(int, int)>,
) -> Seq<M2tsV> {
    let units = build_units(items, marks, only, merge is Some, 0);
    match merge {
        None => units,
        Some(fl) => merge_walk(units, fl.0, fl.1, 0, false, Seq::empty(), 0),
    }
}

/// Builds the output units from the two tables and the two optional
/// transformations.  A merge range and a sub-range window never come
/// together; the table sizes stay within what the file format's 16-bit
/// count fields can declare.
#[verifier::loop_isolation(false)]
#[verifier::rlimit(60)]
pub fn build_timeline(
    items: &Vec<PlayItem>,
    marks: &Vec<Mark>,
    merge: Option<(u16, u16)>,
    only: Option<(Duration, Duration)>,
) -> (r: Vec<M2ts>)
    requires
        !(merge is Some && only is Some),
        items@.len() <= 65535,
        marks@.len() <= 65535,
        only is Some ==> only.unwrap().0.wf() && only.unwrap().1.wf(),
    ensures
        r@.map_values(|u: M2ts| u@) == spec_build_timeline(
            items@.map_values(|p: PlayItem| p@),
            marks@,
            merge,
            match only {
                Some(ft) => Some((ft.0@, ft.1@)),
                None => None,
            },
        ),
{
    let ghost gitems = items@.map_values(|p: PlayItem| p@);
    let ghost gonly: Option<(int, int)> = match only {
        Some(ft) => Some((ft.0@, ft.1@)),
        None => None,
    };
    let ghost mreq = merge is Some;
    let zlit = String::from_str("00:00:00.00");
    let n = items.len();
    let mut units: Vec<M2ts> = Vec::new();
    let mut k: usize = 0;
    proof {
        assert(units@.map_values(|u: M2ts| u@) =~= Seq::<M2tsV>::empty());
    }
    while k < n
        invariant
            k <= n,
            units@.len() <= k,
            build_units(gitems, marks@, gonly, mreq, 0) == units@.map_values(|u: M2ts| u@)
                + build_units(gitems, marks@, gonly, mreq, k as int),
            forall|i: int| 0 <= i < units@.len() ==> unit_exec_wf(#[trigger] units@[i]),
            gonly is None ==> forall|i: int|
                0 <= i < units@.len() ==> unit_tick_bounded(#[trigger] units@[i]@),
        decreases n - k,
    {
        let ghost us0 = units@.map_values(|u: M2ts| u@);
        let ghost gchs = derive_segment(gitems[k as int], marks@, k as int, gonly);
        let item = &items[k];
        let sel = select_marks(marks, k as u16);
        proof {
            broadcast use vstd::seq_lib::group_filter_ensures;

            assert(selected_marks(marks@, k as int).len() <= marks@.len());
        }
        if sel.len() > 0 {
            let base = derive_plain_exec(item, &sel);
            let ghost gbase = base@.map_values(|c: XMLChapter| c@);
            let chs = match &only {
                None => base,
                Some(ft) => only_walk_exec(&base, ft.0, ft.1),
            };
            assert(chs@.map_values(|c: XMLChapter| c@) == gchs);
            assert(chs@.len() <= 65535);
            let keep = if chs.len() == 0 {
                false
            } else if !(merge.is_some() || chs.len() != 1) {
                false
            } else {
                !(chs[0].start == zlit)
            };
            proof {
                if chs@.len() > 0 {
                    assert(chs@[0]@ == gchs[0]);
                }
                assert(keep == retained(gchs, mreq));
            }
            if keep {
                let path = make_path(item.id, &item.codec);
                let unit = M2ts { id: item.id, path, chapters: chs };
                let ghost unitv = unit@;
                assert(unitv == M2tsV {
                    id: gitems[k as int].id,
                    path: path_str(gitems[k as int].id as int, gitems[k as int].codec),
                    chapters: gchs,
                });
                units.push(unit);
                proof {
                    assert(units@.map_values(|u: M2ts| u@) =~= us0.push(unitv));
                    assert(us0 + (seq![unitv] + build_units(gitems, marks@, gonly, mreq, k as int
                        + 1)) =~= us0.push(unitv) + build_units(
                        gitems,
                        marks@,
                        gonly,
                        mreq,
                        k as int + 1,
                    ));
                }
            }
        } else {
            assert(selected_marks(marks@, k as int).len() == 0);
            assert(gchs =~= Seq::<XMLChapterV>::empty());
        }
        k = k + 1;
    }
    proof {
        assert(build_units(gitems, marks@, gonly, mreq, n as int) =~= Seq::<M2tsV>::empty());
        assert(units@.map_values(|u: M2ts| u@) + Seq::<M2tsV>::empty() =~= units@.map_values(
            |u: M2ts| u@,
        ));
    }
    match merge {
        None => units,
        Some(fl) => merge_units(units, fl.0, fl.1),
    }
}

/// The ghost image of the whole pipeline on one in-memory file: what the
/// reader extracts, put through the builder.
pub open spec fn spec_serialize(
    b: Seq<u8>,
    merge: Option<(u16, u16)>,
    only: Option<(int, int)>,
) -> Result<Seq<M2tsV>, ReadError> {
    match spec_parse_playlist(b) {
        Err(e) => Err(e),
        Ok(p) => Ok(spec_build_timeline(p.items, p.marks, merge, only)),
    }
}

/// Runs the Binary Reader and the Timeline Builder on an in-memory copy of
/// a playlist file.  Beside the units the result says whether the header
/// carried the expected signature and version; callers surface a cleared
/// flag as a warning only, never as an abort.
pub fn serialize(
    bytes: &Vec<u8>,
    merge: Option<(u16, u16)>,
    only: Option<(Duration, Duration)>,
) -> (r: Result<(Vec<M2ts>, bool), ReadError>)
    requires
        !(merge is Some && only is Some),
        only is Some ==> only.unwrap().0.wf() && only.unwrap().1.wf(),
    ensures
        ({
            let gonly: Option<(int, int)> = match only {
                Some(ft) => Some((ft.0@, ft.1@)),
                None => None,
            };
            match spec_serialize(bytes@, merge, gonly) {
                Ok(us) => r is Ok && r.unwrap().0@.map_values(|u: M2ts| u@) == us && r.unwrap().1
                    == spec_parse_playlist(bytes@).unwrap().header_ok,
                Err(e) => r is Err && r.unwrap_err() == e,
            }
        }),
{
    let pl = match parse_playlist(bytes) {
        Ok(p) => p,
        Err(e) => {
            return Err(e);
        },
    };
    proof {
        let b = bytes@;
        let play_start = be32(b, 8);
        lemma_play_items_count(b, play_start + 10, be16(b, play_start + 6) as nat);
        assert(pl.items@.len() <= 65535);
        assert(pl.marks@.len() <= 65535);
    }
    let units = build_timeline(&pl.items, &pl.marks, merge, only);
    Ok((units, pl.header_ok))
}

} // verus!
