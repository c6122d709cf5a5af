//! The session history of a frame: groups of entries that share a pipeline,
//! the current entry, and traversal through the history.

use vstd::prelude::*;

use std::collections::HashMap;

use crate::ids::{FrameId, PipelineId};
use crate::pipeline::Pipeline;
use crate::servo_url::ServoUrl;

verus! {

/// An entry in a frame's session history.
///
/// When we operate on the joint session history, entries are sorted
/// chronologically, so we timestamp the entries by when the entry was added
/// to the session history. `instant` is a reading of a monotonic clock.
#[derive(Debug)]
pub struct FrameState {
    /// The timestamp for when the session history entry was created
    pub instant: u64,
    /// The URL for this entry, used to reload the pipeline if it has been discarded
    pub url: ServoUrl,
}

impl Clone for FrameState {
    fn clone(&self) -> (r: Self)
        ensures
            r == *self,
    {
        FrameState { instant: self.instant, url: self.url.clone() }
    }
}

/// A representation of a session history entry. This just aggregates all the data needed
/// when the constellation is handling traversal, but it does not represent how a history
/// entry is actually stored.
#[derive(Debug)]
pub struct HistoryEntry {
    /// The pipeline of this entry.
    pub pipeline_id: Option<PipelineId>,
    /// The frame that owns this entry.
    pub frame_id: FrameId,
    /// The timestamp when this entry was added to the session history.
    pub instant: u64,
    /// The url of this entry.
    pub url: ServoUrl,
}

impl Clone for HistoryEntry {
    fn clone(&self) -> (r: Self)
        ensures
            r == *self,
    {
        HistoryEntry {
            pipeline_id: self.pipeline_id,
            frame_id: self.frame_id,
            instant: self.instant,
            url: self.url.clone(),
        }
    }
}

/// The history entry of `state` in a group of pipeline `pipeline_id` of frame `frame_id`.
pub open spec fn entry_of(pipeline_id: Option<PipelineId>, frame_id: FrameId, state: FrameState) -> HistoryEntry {
    HistoryEntry { pipeline_id, frame_id, instant: state.instant, url: state.url }
}

/// The history entries of `states`, in the same order.
pub open spec fn entries_of(
    pipeline_id: Option<PipelineId>,
    frame_id: FrameId,
    states: Seq<FrameState>,
) -> Seq<HistoryEntry> {
    states.map_values(|s: FrameState| entry_of(pipeline_id, frame_id, s))
}

/// A group of entries that share a pipeline id and are traversable. This is only used for the
/// active group on a `Frame` as an inactive group has no concept of a currently active entry or
/// sets of future and past entries.
#[derive(Debug)]
struct FrameStateEntries {
    /// The currently active entry
    current: FrameState,
    /// The past entries, oldest first.
    past: Vec<FrameState>,
    /// The future entries, latest first.
    future: Vec<FrameState>,
}

/// The mathematical value of a group's entries: the past (oldest first),
/// the current entry, and the future (latest first).
pub struct EntriesView {
    pub past: Seq<FrameState>,
    pub current: FrameState,
    pub future: Seq<FrameState>,
}

/// The entries of a group in chronological order.
pub open spec fn chrono(e: EntriesView) -> Seq<FrameState> {
    e.past + seq![e.current] + e.future.reverse()
}

/// The position of the current entry in `chrono(e)`.
pub open spec fn position(e: EntriesView) -> int {
    e.past.len() as int
}

impl View for FrameStateEntries {
    type V = EntriesView;

    closed spec fn view(&self) -> EntriesView {
        EntriesView { past: self.past@, current: self.current, future: self.future@ }
    }
}

/// Whether `k` is where a walk from position `c` of `s` towards instant `t`
/// ends, and `found` whether it reached an entry at or beyond `t`: a walk
/// back stops at the first earlier entry no later than `t`, a walk forward
/// at the first later entry no earlier than `t`; a walk that finds none
/// ends at the oldest (back) or latest (forward) entry.
pub open spec fn walked(s: Seq<FrameState>, c: int, k: int, t: u64, found: bool) -> bool {
    if t == s[c].instant {
        found && k == c
    } else if t < s[c].instant {
        &&& found == (exists|i: int| 0 <= i < c && #[trigger] s[i].instant <= t)
        &&& found ==> (0 <= k < c && s[k].instant <= t && forall|i: int|
            k < i < c ==> #[trigger] s[i].instant > t)
        &&& !found ==> k == 0
    } else {
        &&& found == (exists|i: int| c < i < s.len() && #[trigger] s[i].instant >= t)
        &&& found ==> (c < k < s.len() && s[k].instant >= t && forall|i: int|
            c < i < k ==> #[trigger] s[i].instant < t)
        &&& !found ==> k == s.len() - 1
    }
}

/// Two views with the same chronological entries and the same position are equal.
proof fn lemma_entries_ext(a: EntriesView, b: EntriesView)
    requires
        chrono(a) == chrono(b),
        position(a) == position(b),
    ensures
        a == b,
{
    let n = a.past.len() as int;
    assert(a.past =~= chrono(a).take(n));
    assert(b.past =~= chrono(b).take(n));
    assert(a.current == chrono(a)[n]);
    assert(b.current == chrono(b)[n]);
    assert(a.future.reverse() =~= chrono(a).skip(n + 1));
    assert(b.future.reverse() =~= chrono(b).skip(n + 1));
    assert(a.future =~= a.future.reverse().reverse());
    assert(b.future =~= b.future.reverse().reverse());
}

impl FrameStateEntries {
    fn new(url: ServoUrl, instant: u64) -> (r: FrameStateEntries)
        ensures
            r@ == (EntriesView {
                past: Seq::empty(),
                current: FrameState { instant, url },
                future: Seq::empty(),
            }),
    {
        FrameStateEntries {
            current: FrameState { instant, url },
            past: Vec::new(),
            future: Vec::new(),
        }
    }

    /// Moves the current entry one step back: the current entry becomes the
    /// latest future one.
    fn step_back(&mut self) -> (moved: bool)
        ensures
            moved == (old(self)@.past.len() > 0),
            chrono(final(self)@) == chrono(old(self)@),
            moved ==> position(final(self)@) == position(old(self)@) - 1,
            !moved ==> final(self)@ == old(self)@,
    {
        match self.past.pop() {
            Some(prev) => {
                let mut previous = prev;
                std::mem::swap(&mut self.current, &mut previous);
                self.future.push(previous);
                proof {
                    assert(chrono(self@) =~= chrono(old(self)@));
                }
                true
            },
            None => false,
        }
    }

    /// Moves the current entry one step forward: the current entry becomes
    /// the latest past one.
    fn step_forward(&mut self) -> (moved: bool)
        ensures
            moved == (old(self)@.future.len() > 0),
            chrono(final(self)@) == chrono(old(self)@),
            moved ==> position(final(self)@) == position(old(self)@) + 1,
            !moved ==> final(self)@ == old(self)@,
    {
        match self.future.pop() {
            Some(next) => {
                let mut previous = next;
                std::mem::swap(&mut self.current, &mut previous);
                self.past.push(previous);
                proof {
                    assert(chrono(self@) =~= chrono(old(self)@));
                }
                true
            },
            None => false,
        }
    }

    /// Traverses to the given entry.
    fn traverse_to_entry(&mut self, entry: &HistoryEntry) -> (found: bool)
        ensures
            chrono(final(self)@) == chrono(old(self)@),
            walked(chrono(old(self)@), position(old(self)@), position(final(self)@), entry.instant, found),
    {
        let ghost s = chrono(self@);
        let ghost c = position(self@);
        if entry.instant == self.current.instant {
            return true;
        } else if entry.instant < self.current.instant {
            // Traversing the past
            while self.step_back()
                invariant
                    chrono(self@) == s,
                    0 <= position(self@) <= c,
                    c == position(old(self)@),
                    s == chrono(old(self)@),
                    entry.instant < s[c].instant,
                    forall|i: int| position(self@) <= i < c ==> #[trigger] s[i].instant > entry.instant,
                decreases position(self@),
            {
                assert(self.current == s[position(self@)]);
                if self.current.instant <= entry.instant {
                    return true;
                }
            }
            assert(position(self@) == 0);
        } else {
            // Traversing the future
            while self.step_forward()
                invariant
                    chrono(self@) == s,
                    c <= position(self@) < s.len(),
                    c == position(old(self)@),
                    s == chrono(old(self)@),
                    entry.instant > s[c].instant,
                    forall|i: int| c < i <= position(self@) ==> #[trigger] s[i].instant < entry.instant,
                decreases s.len() - position(self@),
            {
                assert(self.current == s[position(self@)]);
                if self.current.instant >= entry.instant {
                    return true;
                }
            }
            assert(position(self@) == s.len() - 1);
        }
        false
    }
}

/// A group of consecutive entries in the session history that share a pipeline id.
#[derive(Debug)]
pub struct FrameStateGroup {
    /// The pipeline for these entries in the session history,
    /// None if the pipeline has been discarded
    pub pipeline_id: Option<PipelineId>,
    /// The frame that this session history entry group is part of
    pub frame_id: FrameId,
    /// The history entries that share this pipeline.
    entries: FrameStateEntries,
}

/// The mathematical value of a group: its pipeline, its frame and its entries.
pub struct GroupView {
    pub pipeline_id: Option<PipelineId>,
    pub frame_id: FrameId,
    pub entries: EntriesView,
}

impl View for FrameStateGroup {
    type V = GroupView;

    closed spec fn view(&self) -> GroupView {
        GroupView { pipeline_id: self.pipeline_id, frame_id: self.frame_id, entries: self.entries@ }
    }
}

/// The views of a sequence of groups.
pub open spec fn group_views(groups: Seq<FrameStateGroup>) -> Seq<GroupView> {
    groups.map_values(|g: FrameStateGroup| g@)
}

/// A frame in the frame tree.
/// Each frame is the constellation's view of a browsing context.
/// Each browsing context has a session history, caused by
/// navigation and traversing the history. Each frame has its
/// current entry, plus past and future entries. The past is sorted
/// chronologically, the future is sorted reverse chronologically:
/// in particular prev.pop() is the latest past entry, and
/// next.pop() is the earliest future entry.
#[derive(Debug)]
pub struct Frame {
    /// The frame id.
    pub id: FrameId,
    /// The pipeline for the current session history entry
    pub pipeline_id: PipelineId,
    /// The currently active group of entries. All entries that share the same pipeline represent
    /// a group.
    current_group: FrameStateEntries,
    /// The past session history, ordered chronologically grouped by pipelines.
    pub past: Vec<FrameStateGroup>,
    /// The future session history, ordered reverse chronologically grouped by pipelines.
    pub future: Vec<FrameStateGroup>,
}

impl Frame {
    /// The frame id.
    pub closed spec fn frame_id(&self) -> FrameId {
        self.id
    }

    /// The pipeline of the current entry.
    pub closed spec fn pipeline(&self) -> PipelineId {
        self.pipeline_id
    }

    /// The past groups, oldest first.
    pub closed spec fn past_groups(&self) -> Seq<FrameStateGroup> {
        self.past@
    }

    /// The future groups, latest first.
    pub closed spec fn future_groups(&self) -> Seq<FrameStateGroup> {
        self.future@
    }

    /// The current group, as a group of the frame's current pipeline.
    pub closed spec fn current_group_view(&self) -> GroupView {
        GroupView {
            pipeline_id: Some(self.pipeline_id),
            frame_id: self.id,
            entries: self.current_group@,
        }
    }

    /// The frame's session history as groups in chronological order: the
    /// past groups, the current group, the future groups.
    pub closed spec fn timeline(&self) -> Seq<GroupView> {
        group_views(self.past@) + seq![self.current_group_view()] + group_views(
            self.future@,
        ).reverse()
    }

    /// The index of the current group in the timeline.
    pub closed spec fn current_index(&self) -> int {
        self.past@.len() as int
    }

    /// The current entry.
    pub closed spec fn current_state(&self) -> FrameState {
        self.current_group.current
    }

    /// Create a new frame.
    /// Note this just creates the frame, it doesn't add it to the frame tree.
    /// `instant` is the time at which the frame is created.
    pub fn new(id: FrameId, pipeline_id: PipelineId, url: ServoUrl, instant: u64) -> (r: Frame)
        ensures
            r.frame_id() == id,
            r.pipeline() == pipeline_id,
            r.timeline() == seq![single_group(Some(pipeline_id), id, FrameState { instant, url })],
            r.current_index() == 0,
            r.current_state() == (FrameState { instant, url }),
            r.past_groups().len() == 0,
            r.future_groups().len() == 0,
    {
        let r = Frame {
            id: id,
            pipeline_id: pipeline_id,
            current_group: FrameStateEntries::new(url, instant),
            past: Vec::new(),
            future: Vec::new(),
        };
        assert(r.timeline() =~= seq![single_group(Some(pipeline_id), id, FrameState { instant, url })]);
        r
    }

    /// Set the current frame entry, and push the current frame entry into the past.
    /// `instant` is the time of the load.
    pub fn load(&mut self, pipeline_id: PipelineId, url: ServoUrl, instant: u64)
        ensures
            final(self).frame_id() == old(self).frame_id(),
            final(self).pipeline() == pipeline_id,
            final(self).timeline() == loaded(
                old(self).timeline(),
                old(self).current_index(),
                single_group(Some(pipeline_id), old(self).frame_id(), FrameState { instant, url }),
            ),
            final(self).current_index() == old(self).current_index() + 1,
            final(self).future_groups() == old(self).future_groups(),
            final(self).current_state() == (FrameState { instant, url }),
            final(self).timeline().len() == old(self).timeline().len() + 1,
            forall|j: int|
                0 <= j <= old(self).current_index() ==> #[trigger] final(self).timeline()[j] == old(
                    self,
                ).timeline()[j],
            final(self).timeline()[old(self).current_index() + 1] == single_group(
                Some(pipeline_id),
                old(self).frame_id(),
                FrameState { instant, url },
            ),
            forall|j: int|
                old(self).current_index() < j < old(self).timeline().len() ==> final(self).timeline()[j + 1]
                    == #[trigger] old(self).timeline()[j],
            final(self).past_groups().len() == old(self).past_groups().len() + 1,
            forall|j: int|
                0 <= j < old(self).past_groups().len() ==> #[trigger] final(self).past_groups()[j] == old(
                    self,
                ).past_groups()[j],
            final(self).past_groups().last()@.pipeline_id == Some(old(self).pipeline()),
            final(self).past_groups().last()@.frame_id == old(self).frame_id(),
            final(self).past_groups().last()@.entries.current == old(self).current_state(),
    {
        let mut old_entries = FrameStateEntries::new(url, instant);
        std::mem::swap(&mut self.current_group, &mut old_entries);
        self.past.push(
            FrameStateGroup { pipeline_id: Some(self.pipeline_id), frame_id: self.id, entries: old_entries },
        );
        self.pipeline_id = pipeline_id;
        proof {
            let tl = old(self).timeline();
            let i = old(self).current_index();
            let g = single_group(Some(pipeline_id), old(self).id, FrameState { instant, url });
            assert(group_views(self.past@) =~= group_views(old(self).past@).push(
                old(self).current_group_view(),
            ));
            assert(self.timeline() =~= loaded(tl, i, g));
            old(self).lemma_timeline_at(i);
            lemma_loaded_shape(tl, i, g);
        }
    }

    /// Set the future to be empty.
    pub fn remove_forward_entries(&mut self) -> (r: Vec<FrameStateGroup>)
        ensures
            r@ == old(self).future_groups(),
            final(self).future_groups().len() == 0,
            final(self).frame_id() == old(self).frame_id(),
            final(self).pipeline() == old(self).pipeline(),
            final(self).past_groups() == old(self).past_groups(),
            final(self).timeline() == old(self).timeline().take(old(self).current_index() + 1),
            final(self).current_index() == old(self).current_index(),
    {
        let mut r = Vec::new();
        std::mem::swap(&mut self.future, &mut r);
        assert(self.timeline() =~= old(self).timeline().take(old(self).current_index() + 1));
        r
    }

    /// The current entry of the session history.
    pub fn current(&self) -> (r: HistoryEntry)
        ensures
            r == entry_of(Some(self.pipeline()), self.frame_id(), self.current_state()),
    {
        HistoryEntry {
            pipeline_id: Some(self.pipeline_id),
            frame_id: self.id,
            url: self.current_group.current.url.clone(),
            instant: self.current_group.current.instant,
        }
    }

    /// The time of the current entry.
    pub fn instant(&self) -> (r: u64)
        ensures
            r == self.current_state().instant,
    {
        self.current_group.current.instant
    }
}

/// A group of one entry.
pub open spec fn single_group(pipeline_id: Option<PipelineId>, frame_id: FrameId, state: FrameState) -> GroupView {
    GroupView {
        pipeline_id,
        frame_id,
        entries: EntriesView { past: Seq::empty(), current: state, future: Seq::empty() },
    }
}

/// The timeline after a load at current index `i`: the new group follows
/// the current one, and the groups after it stay.
pub open spec fn loaded(tl: Seq<GroupView>, i: int, g: GroupView) -> Seq<GroupView> {
    tl.take(i + 1).push(g) + tl.skip(i + 1)
}

/// The instant of the `i`-th entry of group `g`, in chronological order.
pub open spec fn instant_at(g: GroupView, i: int) -> u64 {
    chrono(g.entries)[i].instant
}

/// The number of entries of a group.
pub open spec fn group_len(g: GroupView) -> int {
    chrono(g.entries).len() as int
}

/// Whether the entries of a timeline are in chronological order: within
/// each group, and from each group to every later one.
pub open spec fn timeline_sorted(tl: Seq<GroupView>) -> bool {
    &&& forall|g: int, i: int, j: int|
        0 <= g < tl.len() && 0 <= i <= j < group_len(tl[g]) ==> #[trigger] instant_at(tl[g], i)
            <= #[trigger] instant_at(tl[g], j)
    &&& forall|g: int, h: int, i: int, j: int|
        0 <= g < h < tl.len() && 0 <= i < group_len(tl[g]) && 0 <= j < group_len(tl[h])
            ==> #[trigger] instant_at(tl[g], i) <= #[trigger] instant_at(tl[h], j)
}

/// Whether group `g` holds an entry of instant `t`.
pub open spec fn group_has(g: GroupView, t: u64) -> bool {
    exists|i: int| 0 <= i < group_len(g) && #[trigger] instant_at(g, i) == t
}

/// Whether the timeline holds an entry of instant `t`.
pub open spec fn timeline_has(tl: Seq<GroupView>, t: u64) -> bool {
    exists|g: int| 0 <= g < tl.len() && #[trigger] group_has(tl[g], t)
}

/// Whether `k` is the entry of instant `t` nearest to the group's current
/// entry: the current entry itself where it has instant `t`, else the
/// first such entry that a walk from the current entry meets.
pub open spec fn nearest_entry(g: GroupView, k: int, t: u64) -> bool {
    let p = position(g.entries);
    &&& 0 <= k < group_len(g)
    &&& instant_at(g, k) == t
    &&& instant_at(g, p) == t ==> k == p
    &&& forall|i: int| (p < i < k || k < i < p) ==> #[trigger] instant_at(g, i) != t
}

/// Group `after` is group `before` after a traversal went through it to
/// its end (`to_latest`) or its start: same pipeline and entries, the
/// current entry at that end, and the frame's id.
pub open spec fn passed_through(before: GroupView, after: GroupView, frame_id: FrameId, to_latest: bool) -> bool {
    &&& after.pipeline_id == before.pipeline_id
    &&& after.frame_id == frame_id
    &&& chrono(after.entries) == chrono(before.entries)
    &&& position(after.entries) == if to_latest { group_len(before) - 1 } else { 0 }
}

/// Whether `after` (current index `j`) is timeline `before` (current
/// index `i`) after a traversal of frame `frame_id` to instant `t` that
/// gives the new current group the pipeline `pipeline_id`. The traversal
/// moves to the nearest group that holds `t` and, within it, to the
/// nearest entry of instant `t`; the groups it goes through are left at
/// their end in the direction of travel; the other groups stay.
pub open spec fn traversed(
    before: Seq<GroupView>,
    i: int,
    after: Seq<GroupView>,
    j: int,
    t: u64,
    frame_id: FrameId,
    pipeline_id: PipelineId,
) -> bool {
    let cur = before[i].entries.current.instant;
    &&& after.len() == before.len()
    &&& 0 <= j < before.len()
    &&& forall|g: int|
        0 <= g < before.len() && (g < i && g < j || g > i && g > j) ==> #[trigger] after[g] == before[g]
    &&& t == cur ==> j == i
    &&& t > cur ==> i <= j && forall|g: int|
        i <= g < j ==> passed_through(before[g], #[trigger] after[g], frame_id, true) && !group_has(before[g], t)
    &&& t < cur ==> j <= i && forall|g: int|
        j < g <= i ==> passed_through(before[g], #[trigger] after[g], frame_id, false) && !group_has(before[g], t)
    &&& after[j].frame_id == frame_id
    &&& after[j].pipeline_id == Some(pipeline_id)
    &&& chrono(after[j].entries) == chrono(before[j].entries)
    &&& nearest_entry(before[j], position(after[j].entries), t)
}

/// Where a walk within a sorted group towards instant `t` ends, when `t`
/// is in the group or later than all of it.
proof fn lemma_walk_forward_outcome(s: Seq<FrameState>, p: int, k: int, t: u64, found: bool)
    requires
        0 <= p < s.len(),
        forall|a: int, b: int| 0 <= a <= b < s.len() ==> #[trigger] s[a].instant <= #[trigger] s[b].instant,
        walked(s, p, k, t, found),
        (exists|i: int| 0 <= i < s.len() && s[i].instant == t) || (forall|i: int| 0 <= i < s.len() ==> #[trigger] s[i].instant < t),
    ensures
        found == (exists|i: int| 0 <= i < s.len() && s[i].instant == t),
        found ==> 0 <= k < s.len() && s[k].instant == t && (s[p].instant == t ==> k == p) && forall|i: int|
            (p < i < k || k < i < p) ==> #[trigger] s[i].instant != t,
        !found ==> k == s.len() - 1,
{
    if t == s[p].instant {
    } else if t < s[p].instant {
        let j = choose|i: int| 0 <= i < s.len() && s[i].instant == t;
        assert(s[j].instant == t);
        if j >= p {
            assert(s[p].instant <= s[j].instant);
        }
        assert(found);
        if k < j {
            assert(s[j].instant > t);
        }
        assert(s[j].instant <= s[k].instant);
    } else {
        if exists|i: int| 0 <= i < s.len() && s[i].instant == t {
            let j = choose|i: int| 0 <= i < s.len() && s[i].instant == t;
            if j <= p {
                assert(s[j].instant <= s[p].instant);
            }
            assert(s[j].instant >= t);
            assert(found);
            if k > j {
                assert(s[j].instant < t);
            }
            assert(s[k].instant <= s[j].instant);
        } else {
            if found {
                assert(s[k].instant < t);
            }
        }
    }
}

/// Where a walk within a sorted group towards instant `t` ends, when `t`
/// is in the group or earlier than all of it.
proof fn lemma_walk_back_outcome(s: Seq<FrameState>, p: int, k: int, t: u64, found: bool)
    requires
        0 <= p < s.len(),
        forall|a: int, b: int| 0 <= a <= b < s.len() ==> #[trigger] s[a].instant <= #[trigger] s[b].instant,
        walked(s, p, k, t, found),
        (exists|i: int| 0 <= i < s.len() && s[i].instant == t) || (forall|i: int| 0 <= i < s.len() ==> #[trigger] s[i].instant > t),
    ensures
        found == (exists|i: int| 0 <= i < s.len() && s[i].instant == t),
        found ==> 0 <= k < s.len() && s[k].instant == t && (s[p].instant == t ==> k == p) && forall|i: int|
            (p < i < k || k < i < p) ==> #[trigger] s[i].instant != t,
        !found ==> k == 0,
{
    if t == s[p].instant {
    } else if t > s[p].instant {
        let j = choose|i: int| 0 <= i < s.len() && s[i].instant == t;
        assert(s[j].instant == t);
        if j <= p {
            assert(s[j].instant <= s[p].instant);
        }
        assert(found);
        if k > j {
            assert(s[j].instant < t);
        }
        assert(s[k].instant <= s[j].instant);
    } else {
        if exists|i: int| 0 <= i < s.len() && s[i].instant == t {
            let j = choose|i: int| 0 <= i < s.len() && s[i].instant == t;
            if j >= p {
                assert(s[p].instant <= s[j].instant);
            }
            assert(s[j].instant <= t);
            assert(found);
            if k < j {
                assert(s[j].instant > t);
            }
            assert(s[j].instant <= s[k].instant);
        } else {
            if found {
                assert(s[k].instant > t);
            }
        }
    }
}

impl Frame {
    /// The current group of the timeline holds the current entry, under the
    /// frame's id and current pipeline.
    pub proof fn lemma_current_in_timeline(&self)
        ensures
            0 <= self.current_index() < self.timeline().len(),
            self.timeline()[self.current_index()].entries.current == self.current_state(),
            self.timeline()[self.current_index()].pipeline_id == Some(self.pipeline()),
            self.timeline()[self.current_index()].frame_id == self.frame_id(),
    {
    }

    /// Where the groups of the fields stand in the timeline.
    /// The timeline is the past groups in their order, the current group
    /// (under the frame's id and current pipeline), then the future groups
    /// from the last to the first: group `j` of the timeline is past group
    /// `j`, the current group, or future group `len - 1 - j`.
    pub proof fn lemma_timeline_at(&self, j: int)
        requires
            0 <= j < self.past_groups().len() + 1 + self.future_groups().len(),
        ensures
            self.timeline().len() == self.past_groups().len() + 1 + self.future_groups().len(),
            self.current_index() == self.past_groups().len(),
            j < self.past_groups().len() ==> self.timeline()[j] == self.past_groups()[j]@,
            j == self.past_groups().len() ==> self.timeline()[j] == self.current_group_view(),
            j == self.past_groups().len() ==> self.timeline()[j].entries.current == self.current_state(),
            j == self.past_groups().len() ==> self.timeline()[j].pipeline_id == Some(self.pipeline()),
            j == self.past_groups().len() ==> self.timeline()[j].frame_id == self.frame_id(),
            j > self.past_groups().len() ==> self.timeline()[j] == self.future_groups()[self.timeline().len()
                - 1 - j]@,
    {
    }
}

/// The entries of each group of a sorted timeline are sorted.
proof fn lemma_group_sorted(tl: Seq<GroupView>, g: int)
    requires
        timeline_sorted(tl),
        0 <= g < tl.len(),
    ensures
        forall|a: int, b: int|
            0 <= a <= b < group_len(tl[g]) ==> #[trigger] chrono(tl[g].entries)[a].instant
                <= #[trigger] chrono(tl[g].entries)[b].instant,
{
    assert forall|a: int, b: int| 0 <= a <= b < group_len(tl[g]) implies #[trigger] chrono(
        tl[g].entries,
    )[a].instant <= #[trigger] chrono(tl[g].entries)[b].instant by {
        assert(instant_at(tl[g], a) <= instant_at(tl[g], b));
    }
}

impl Frame {
    /// Moves forward through the session history, group by group, to the
    /// nearest entry of the instant of `entry`.
    fn walk_future(&mut self, entry: &HistoryEntry)
        requires
            timeline_sorted(old(self).timeline()),
            timeline_has(old(self).timeline(), entry.instant),
            entry.instant > old(self).current_state().instant,
        ensures
            final(self).id == old(self).id,
            final(self).pipeline_id == old(self).pipeline_id,
            traversed(
                old(self).timeline(),
                old(self).current_index(),
                final(self).timeline(),
                final(self).current_index(),
                entry.instant,
                old(self).id,
                old(self).pipeline_id,
            ),
    {
        let ghost tl = self.timeline();
        let ghost gc = self.current_index();
        let ghost n = tl.len() as int;
        let ghost id = self.id;
        let ghost pid = self.pipeline_id;
        let ghost t = entry.instant;
        proof {
            assert forall|j: int| 0 <= j < gc implies self.past@[j]@ == tl[j] by {
                self.lemma_timeline_at(j);
            }
            assert forall|j: int| 0 <= j < self.future@.len() implies self.future@[j]@ == tl[n - 1 - j] by {
                self.lemma_timeline_at(n - 1 - j);
            }
            self.lemma_timeline_at(gc);
            let h = choose|h: int| 0 <= h < tl.len() && #[trigger] group_has(tl[h], t);
            if h < gc {
                let i = choose|i: int| 0 <= i < group_len(tl[h]) && #[trigger] instant_at(tl[h], i) == t;
                assert(instant_at(tl[h], i) <= instant_at(tl[gc], position(tl[gc].entries)));
            }
            assert forall|j: int, i: int| 0 <= j < gc && 0 <= i < group_len(tl[j]) implies #[trigger] instant_at(tl[j], i) < t by {
                assert(instant_at(tl[j], i) <= instant_at(tl[gc], position(tl[gc].entries)));
            }
        }
        let mut current_pipeline = Some(self.pipeline_id);
        loop
            invariant_except_break
                self.id == id,
                self.pipeline_id == pid,
                tl == old(self).timeline(),
                gc == old(self).current_index(),
                n == tl.len(),
                timeline_sorted(tl),
                t == entry.instant,
                gc <= self.past@.len() < n,
                self.past@.len() + 1 + self.future@.len() == n,
                forall|j: int| 0 <= j < gc ==> #[trigger] self.past@[j]@ == tl[j],
                forall|j: int|
                    gc <= j < self.past@.len() ==> passed_through(tl[j], #[trigger] self.past@[j]@, id, true)
                        && !group_has(tl[j], t),
                forall|j: int| 0 <= j < self.future@.len() ==> #[trigger] self.future@[j]@ == tl[n - 1 - j],
                self.current_group@ == tl[self.past@.len() as int].entries,
                current_pipeline == tl[self.past@.len() as int].pipeline_id,
                forall|j: int, i: int|
                    0 <= j < self.past@.len() && 0 <= i < group_len(tl[j]) ==> #[trigger] instant_at(tl[j], i) < t,
                exists|h: int| self.past@.len() <= h < n && #[trigger] group_has(tl[h], t),
            ensures
                self.id == id,
                self.pipeline_id == pid,
                gc <= self.past@.len() < n,
                self.past@.len() + 1 + self.future@.len() == n,
                forall|j: int| 0 <= j < gc ==> #[trigger] self.past@[j]@ == tl[j],
                forall|j: int|
                    gc <= j < self.past@.len() ==> passed_through(tl[j], #[trigger] self.past@[j]@, id, true)
                        && !group_has(tl[j], t),
                forall|j: int| 0 <= j < self.future@.len() ==> #[trigger] self.future@[j]@ == tl[n - 1 - j],
                chrono(self.current_group@) == chrono(tl[self.past@.len() as int].entries),
                nearest_entry(tl[self.past@.len() as int], position(self.current_group@), t),
            decreases self.future@.len(),
        {
            let ghost g = self.past@.len() as int;
            let found = self.current_group.traverse_to_entry(entry);
            proof {
                let s = chrono(tl[g].entries);
                lemma_group_sorted(tl, g);
                let h = choose|h: int| g <= h < n && #[trigger] group_has(tl[h], t);
                if !(exists|i: int| 0 <= i < s.len() && s[i].instant == t) {
                    assert(h != g) by {
                        if h == g {
                            let i = choose|i: int| 0 <= i < group_len(tl[h]) && #[trigger] instant_at(tl[h], i) == t;
                            assert(s[i].instant == t);
                        }
                    }
                    let i0 = choose|i: int| 0 <= i < group_len(tl[h]) && #[trigger] instant_at(tl[h], i) == t;
                    assert forall|i: int| 0 <= i < s.len() implies #[trigger] s[i].instant < t by {
                        assert(instant_at(tl[g], i) <= instant_at(tl[h], i0));
                    }
                }
                lemma_walk_forward_outcome(s, position(tl[g].entries), position(self.current_group@), t, found);
                assert(group_has(tl[g], t) == (exists|i: int| 0 <= i < s.len() && s[i].instant == t)) by {
                    if group_has(tl[g], t) {
                        let i = choose|i: int| 0 <= i < group_len(tl[g]) && #[trigger] instant_at(tl[g], i) == t;
                        assert(s[i].instant == t);
                    }
                    if exists|i: int| 0 <= i < s.len() && s[i].instant == t {
                        let i = choose|i: int| 0 <= i < s.len() && s[i].instant == t;
                        assert(instant_at(tl[g], i) == t);
                    }
                }
            }
            if found {
                break;
            }
            let ghost future_before = self.future@;
            match self.future.pop() {
                Some(next) => {
                    assert(next@ == tl[g + 1]) by {
                        assert(next == future_before[future_before.len() - 1]);
                    }
                    let FrameStateGroup { pipeline_id: next_pipeline, frame_id: _, entries: next_entries } = next;
                    let mut old_entries = next_entries;
                    std::mem::swap(&mut self.current_group, &mut old_entries);
                    self.past.push(
                        FrameStateGroup { pipeline_id: current_pipeline, frame_id: self.id, entries: old_entries },
                    );
                    current_pipeline = next_pipeline;
                    proof {
                        let s = chrono(tl[g].entries);
                        let h = choose|h: int| g <= h < n && #[trigger] group_has(tl[h], t);
                        assert(h != g);
                        let i0 = choose|i: int| 0 <= i < group_len(tl[h]) && #[trigger] instant_at(tl[h], i) == t;
                        assert forall|j: int, i: int|
                            0 <= j < self.past@.len() && 0 <= i < group_len(tl[j]) implies #[trigger] instant_at(tl[j], i) < t by {
                            if j == g {
                                assert(instant_at(tl[g], i) <= instant_at(tl[h], i0));
                                if instant_at(tl[g], i) == t {
                                    assert(s[i].instant == t);
                                }
                            }
                        }
                        assert(group_has(tl[h], t));
                    }
                },
                None => break,
            }
        }
        proof {
            let tl2 = self.timeline();
            let g2 = self.current_index();
            assert forall|j: int| 0 <= j < n implies #[trigger] tl2[j] == (if j < g2 {
                self.past@[j]@
            } else if j == g2 {
                self.current_group_view()
            } else {
                self.future@[n - 1 - j]@
            }) by {
                self.lemma_timeline_at(j);
            }
            assert(tl2.len() == n);
            assert(tl[gc].entries.current.instant < t);
            assert forall|g: int| 0 <= g < n && (g < gc && g < g2 || g > gc && g > g2) implies #[trigger] tl2[g] == tl[g] by {
                if g > g2 {
                    assert(self.future@[n - 1 - g]@ == tl[n - 1 - (n - 1 - g)]);
                }
            }
            assert forall|g: int| gc <= g < g2 implies passed_through(tl[g], #[trigger] tl2[g], id, true) && !group_has(tl[g], t) by {
                assert(tl2[g] == self.past@[g]@);
            }
            assert(tl2[g2] == self.current_group_view());
            assert(tl2[g2].frame_id == id);
            assert(chrono(tl2[g2].entries) == chrono(tl[g2].entries));
            assert(nearest_entry(tl[g2], position(tl2[g2].entries), t));
        }
    }
}

impl Frame {
    /// Moves back through the session history, group by group, to the
    /// nearest entry of the instant of `entry`.
    #[verifier::spinoff_prover]
    fn walk_past(&mut self, entry: &HistoryEntry)
        requires
            timeline_sorted(old(self).timeline()),
            timeline_has(old(self).timeline(), entry.instant),
            entry.instant < old(self).current_state().instant,
        ensures
            final(self).id == old(self).id,
            final(self).pipeline_id == old(self).pipeline_id,
            traversed(
                old(self).timeline(),
                old(self).current_index(),
                final(self).timeline(),
                final(self).current_index(),
                entry.instant,
                old(self).id,
                old(self).pipeline_id,
            ),
    {
        let ghost tl = self.timeline();
        let ghost gc = self.current_index();
        let ghost n = tl.len() as int;
        let ghost id = self.id;
        let ghost pid = self.pipeline_id;
        let ghost t = entry.instant;
        proof {
            assert forall|j: int| 0 <= j < gc implies self.past@[j]@ == tl[j] by {
                self.lemma_timeline_at(j);
            }
            assert forall|j: int| 0 <= j < self.future@.len() implies self.future@[j]@ == tl[n - 1 - j] by {
                self.lemma_timeline_at(n - 1 - j);
            }
            self.lemma_timeline_at(gc);
            let h = choose|h: int| 0 <= h < tl.len() && #[trigger] group_has(tl[h], t);
            if h > gc {
                let i = choose|i: int| 0 <= i < group_len(tl[h]) && #[trigger] instant_at(tl[h], i) == t;
                assert(instant_at(tl[gc], position(tl[gc].entries)) <= instant_at(tl[h], i));
            }
            assert forall|j: int, i: int| gc < j < n && 0 <= i < group_len(tl[j]) implies #[trigger] instant_at(tl[j], i) > t by {
                assert(instant_at(tl[gc], position(tl[gc].entries)) <= instant_at(tl[j], i));
            }
        }
        let mut current_pipeline = Some(self.pipeline_id);
        loop
            invariant_except_break
                self.id == id,
                self.pipeline_id == pid,
                tl == old(self).timeline(),
                gc == old(self).current_index(),
                n == tl.len(),
                timeline_sorted(tl),
                t == entry.instant,
                0 <= self.past@.len() <= gc,
                gc < n,
                self.past@.len() + 1 + self.future@.len() == n,
                forall|j: int| 0 <= j < self.past@.len() ==> #[trigger] self.past@[j]@ == tl[j],
                forall|j: int|
                    0 <= j < self.future@.len() && n - 1 - j > gc ==> #[trigger] self.future@[j]@ == tl[n - 1 - j],
                forall|j: int|
                    0 <= j < self.future@.len() && n - 1 - j <= gc ==> passed_through(tl[n - 1 - j], #[trigger] self.future@[j]@, id, false)
                        && !group_has(tl[n - 1 - j], t),
                self.current_group@ == tl[self.past@.len() as int].entries,
                current_pipeline == tl[self.past@.len() as int].pipeline_id,
                forall|j: int, i: int|
                    self.past@.len() < j < n && 0 <= i < group_len(tl[j]) ==> #[trigger] instant_at(tl[j], i) > t,
                exists|h: int| 0 <= h <= self.past@.len() && #[trigger] group_has(tl[h], t),
            ensures
                self.id == id,
                self.pipeline_id == pid,
                0 <= self.past@.len() <= gc,
                self.past@.len() + 1 + self.future@.len() == n,
                forall|j: int| 0 <= j < self.past@.len() ==> #[trigger] self.past@[j]@ == tl[j],
                forall|j: int|
                    0 <= j < self.future@.len() && n - 1 - j > gc ==> #[trigger] self.future@[j]@ == tl[n - 1 - j],
                forall|j: int|
                    0 <= j < self.future@.len() && n - 1 - j <= gc ==> passed_through(tl[n - 1 - j], #[trigger] self.future@[j]@, id, false)
                        && !group_has(tl[n - 1 - j], t),
                chrono(self.current_group@) == chrono(tl[self.past@.len() as int].entries),
                nearest_entry(tl[self.past@.len() as int], position(self.current_group@), t),
            decreases self.past@.len(),
        {
            let ghost g = self.past@.len() as int;
            let found = self.current_group.traverse_to_entry(entry);
            proof {
                let s = chrono(tl[g].entries);
                lemma_group_sorted(tl, g);
                let h = choose|h: int| 0 <= h <= g && #[trigger] group_has(tl[h], t);
                if !(exists|i: int| 0 <= i < s.len() && s[i].instant == t) {
                    assert(h != g) by {
                        if h == g {
                            let i = choose|i: int| 0 <= i < group_len(tl[h]) && #[trigger] instant_at(tl[h], i) == t;
                            assert(s[i].instant == t);
                        }
                    }
                    let i0 = choose|i: int| 0 <= i < group_len(tl[h]) && #[trigger] instant_at(tl[h], i) == t;
                    assert forall|i: int| 0 <= i < s.len() implies #[trigger] s[i].instant > t by {
                        assert(instant_at(tl[h], i0) <= instant_at(tl[g], i));
                    }
                }
                lemma_walk_back_outcome(s, position(tl[g].entries), position(self.current_group@), t, found);
                assert(group_has(tl[g], t) == (exists|i: int| 0 <= i < s.len() && s[i].instant == t)) by {
                    if group_has(tl[g], t) {
                        let i = choose|i: int| 0 <= i < group_len(tl[g]) && #[trigger] instant_at(tl[g], i) == t;
                        assert(s[i].instant == t);
                    }
                    if exists|i: int| 0 <= i < s.len() && s[i].instant == t {
                        let i = choose|i: int| 0 <= i < s.len() && s[i].instant == t;
                        assert(instant_at(tl[g], i) == t);
                    }
                }
            }
            if found {
                break;
            }
            let ghost past_before = self.past@;
            let ghost future_before = self.future@;
            match self.past.pop() {
                Some(prev) => {
                    assert(prev@ == tl[g - 1]) by {
                        assert(prev == past_before[past_before.len() - 1]);
                    }
                    let FrameStateGroup { pipeline_id: prev_pipeline, frame_id: _, entries: prev_entries } = prev;
                    let mut old_entries = prev_entries;
                    std::mem::swap(&mut self.current_group, &mut old_entries);
                    self.future.push(
                        FrameStateGroup { pipeline_id: current_pipeline, frame_id: self.id, entries: old_entries },
                    );
                    current_pipeline = prev_pipeline;
                    proof {
                        let s = chrono(tl[g].entries);
                        let h = choose|h: int| 0 <= h <= g && #[trigger] group_has(tl[h], t);
                        assert(h != g);
                        let i0 = choose|i: int| 0 <= i < group_len(tl[h]) && #[trigger] instant_at(tl[h], i) == t;
                        assert forall|j: int, i: int|
                            self.past@.len() < j < n && 0 <= i < group_len(tl[j]) implies #[trigger] instant_at(tl[j], i) > t by {
                            if j == g {
                                assert(instant_at(tl[h], i0) <= instant_at(tl[g], i));
                                if instant_at(tl[g], i) == t {
                                    assert(s[i].instant == t);
                                }
                            }
                        }
                        assert(group_has(tl[h], t));
                        assert forall|j: int|
                            0 <= j < self.future@.len() && n - 1 - j <= gc implies passed_through(tl[n - 1 - j], #[trigger] self.future@[j]@, id, false)
                                && !group_has(tl[n - 1 - j], t) by {
                            if j < future_before.len() {
                                assert(self.future@[j] == future_before[j]);
                            }
                        }
                    }
                },
                None => break,
            }
        }
        proof {
            let tl2 = self.timeline();
            let g2 = self.current_index();
            assert forall|j: int| 0 <= j < n implies #[trigger] tl2[j] == (if j < g2 {
                self.past@[j]@
            } else if j == g2 {
                self.current_group_view()
            } else {
                self.future@[n - 1 - j]@
            }) by {
                self.lemma_timeline_at(j);
            }
            assert(tl2.len() == n);
            assert(tl[gc].entries.current.instant > t);
            assert forall|g: int| 0 <= g < n && (g < gc && g < g2 || g > gc && g > g2) implies #[trigger] tl2[g] == tl[g] by {
                if g > gc {
                    assert(self.future@[n - 1 - g]@ == tl[n - 1 - (n - 1 - g)]);
                }
            }
            assert forall|g: int| g2 < g <= gc implies passed_through(tl[g], #[trigger] tl2[g], id, false) && !group_has(tl[g], t) by {
                assert(tl2[g] == self.future@[n - 1 - g]@);
                assert(n - 1 - (n - 1 - g) == g);
            }
            assert(tl2[g2] == self.current_group_view());
            assert(tl2[g2].frame_id == id);
            assert(chrono(tl2[g2].entries) == chrono(tl[g2].entries));
            assert(nearest_entry(tl[g2], position(tl2[g2].entries), t));
        }
    }
}

/// The group `g` with `pipeline_id` as its pipeline.
spec fn with_pipeline(g: GroupView, pipeline_id: PipelineId) -> GroupView {
    GroupView { pipeline_id: Some(pipeline_id), ..g }
}

/// A traversal keeps the session history: every group keeps its entries in
/// the same chronological order, so a sorted timeline stays sorted; and
/// the new current entry has the instant traversed to.
pub proof fn lemma_traversal_keeps_history(
    before: Seq<GroupView>,
    i: int,
    after: Seq<GroupView>,
    j: int,
    t: u64,
    frame_id: FrameId,
    pipeline_id: PipelineId,
)
    requires
        0 <= i < before.len(),
        traversed(before, i, after, j, t, frame_id, pipeline_id),
    ensures
        forall|g: int| 0 <= g < before.len() ==> #[trigger] chrono(after[g].entries) == chrono(before[g].entries),
        timeline_sorted(before) ==> timeline_sorted(after),
        timeline_strictly_sorted(before) ==> timeline_strictly_sorted(after),
        after[j].entries.current.instant == t,
{
    assert forall|g: int| 0 <= g < before.len() implies #[trigger] chrono(after[g].entries) == chrono(before[g].entries) by {
        if !(g < i && g < j || g > i && g > j) && g != j {
            assert(passed_through(before[g], after[g], frame_id, before[i].entries.current.instant < t));
        }
    }
    if timeline_sorted(before) {
        assert forall|g: int, a: int, b: int|
            0 <= g < after.len() && 0 <= a <= b < group_len(after[g]) implies #[trigger] instant_at(after[g], a)
                <= #[trigger] instant_at(after[g], b) by {
            assert(chrono(after[g].entries) == chrono(before[g].entries));
            assert(instant_at(before[g], a) <= instant_at(before[g], b));
        }
        assert forall|g: int, h: int, a: int, b: int|
            0 <= g < h < after.len() && 0 <= a < group_len(after[g]) && 0 <= b < group_len(after[h])
                implies #[trigger] instant_at(after[g], a) <= #[trigger] instant_at(after[h], b) by {
            assert(chrono(after[g].entries) == chrono(before[g].entries));
            assert(chrono(after[h].entries) == chrono(before[h].entries));
            assert(instant_at(before[g], a) <= instant_at(before[h], b));
        }
    }
    if timeline_strictly_sorted(before) {
        assert forall|g: int, a: int, b: int|
            0 <= g < after.len() && 0 <= a < b < group_len(after[g]) implies #[trigger] instant_at(after[g], a)
                < #[trigger] instant_at(after[g], b) by {
            assert(chrono(after[g].entries) == chrono(before[g].entries));
            assert(instant_at(before[g], a) < instant_at(before[g], b));
        }
        assert forall|g: int, h: int, a: int, b: int|
            0 <= g < h < after.len() && 0 <= a < group_len(after[g]) && 0 <= b < group_len(after[h])
                implies #[trigger] instant_at(after[g], a) < #[trigger] instant_at(after[h], b) by {
            assert(chrono(after[g].entries) == chrono(before[g].entries));
            assert(chrono(after[h].entries) == chrono(before[h].entries));
            assert(instant_at(before[g], a) < instant_at(before[h], b));
        }
    }
    let k = position(after[j].entries);
    assert(chrono(after[j].entries)[k] == after[j].entries.current);
}

impl Frame {
    /// Traverses the session history to the entry of the instant of
    /// `entry`, and makes `pipeline_id` the pipeline of the current entry.
    ///
    /// Unless the instant is the current entry's, the history must be in
    /// chronological order and hold an entry of that instant: the traversal moves to the nearest group that holds
    /// one, and within it to the nearest such entry; the groups it goes
    /// through are left at their end in the direction of travel.
    pub fn traverse_to_entry(&mut self, entry: HistoryEntry, pipeline_id: PipelineId)
        requires
            old(self).current_state().instant == entry.instant || (timeline_sorted(old(self).timeline())
                && timeline_has(old(self).timeline(), entry.instant)),
        ensures
            final(self).frame_id() == old(self).frame_id(),
            final(self).pipeline() == pipeline_id,
            final(self).current_state().instant == entry.instant,
            traversed(
                old(self).timeline(),
                old(self).current_index(),
                final(self).timeline(),
                final(self).current_index(),
                entry.instant,
                old(self).frame_id(),
                pipeline_id,
            ),
            timeline_sorted(old(self).timeline()) ==> timeline_sorted(final(self).timeline()),
            timeline_strictly_sorted(old(self).timeline()) ==> timeline_strictly_sorted(final(self).timeline()),
    {
        let ghost tl = self.timeline();
        let ghost gc = self.current_index();
        let ghost pid = self.pipeline_id;
        proof {
            self.lemma_timeline_at(gc);
        }
        if entry.instant > self.instant() {
            // Traversing the future
            self.walk_future(&entry);
        } else if entry.instant < self.instant() {
            // Traversing the past
            self.walk_past(&entry);
        }
        let ghost walked_tl = self.timeline();
        let ghost g2 = self.current_index();
        proof {
            if entry.instant == old(self).current_group.current.instant {
                assert(walked_tl =~= tl);
                assert(nearest_entry(tl[gc], position(tl[gc].entries), entry.instant));
                assert(traversed(tl, gc, walked_tl, gc, entry.instant, self.id, pid));
            }
            lemma_traversal_keeps_history(tl, gc, walked_tl, g2, entry.instant, self.id, pid);
            self.lemma_timeline_at(g2);
        }
        self.pipeline_id = pipeline_id;
        proof {
            let tl2 = self.timeline();
            assert(tl2 =~= walked_tl.update(g2, with_pipeline(walked_tl[g2], pipeline_id)));
            assert forall|g: int| 0 <= g < tl2.len() && g != g2 implies #[trigger] tl2[g] == walked_tl[g] by {}
            assert(tl2[g2].entries == walked_tl[g2].entries);
            let t = entry.instant;
            let cur = tl[gc].entries.current.instant;
            assert(traversed(tl, gc, walked_tl, g2, t, self.id, pid));
            assert forall|g: int|
                0 <= g < tl.len() && (g < gc && g < g2 || g > gc && g > g2) implies #[trigger] tl2[g] == tl[g] by {
                assert(walked_tl[g] == tl[g]);
            }
            if t > cur {
                assert forall|g: int| gc <= g < g2 implies passed_through(tl[g], #[trigger] tl2[g], self.id, true)
                    && !group_has(tl[g], t) by {
                    assert(passed_through(tl[g], walked_tl[g], self.id, true));
                }
            }
            if t < cur {
                assert forall|g: int| g2 < g <= gc implies passed_through(tl[g], #[trigger] tl2[g], self.id, false)
                    && !group_has(tl[g], t) by {
                    assert(passed_through(tl[g], walked_tl[g], self.id, false));
                }
            }
            assert(traversed(tl, gc, tl2, g2, entry.instant, self.id, pipeline_id));
            assert forall|g: int, a: int| 0 <= g < tl2.len() && 0 <= a < group_len(tl2[g]) implies #[trigger] instant_at(tl2[g], a) == instant_at(walked_tl[g], a) by {
            }
        }
    }
}

/// The entries of a group in the order in which the session history lists
/// them: the past (oldest first), the current entry, then the future
/// (latest first).
pub open spec fn listing(g: GroupView) -> Seq<HistoryEntry> {
    entries_of(g.pipeline_id, g.frame_id, g.entries.past + seq![g.entries.current] + g.entries.future)
}

/// The listings of a sequence of groups, one after the other.
pub open spec fn listings(groups: Seq<GroupView>) -> Seq<HistoryEntry> {
    groups.map_values(|g: GroupView| listing(g)).flatten()
}

/// The history entry of `state`.
fn entry_from(pipeline_id: Option<PipelineId>, frame_id: FrameId, state: &FrameState) -> (r: HistoryEntry)
    ensures
        r == entry_of(pipeline_id, frame_id, *state),
{
    HistoryEntry { pipeline_id, frame_id, instant: state.instant, url: state.url.clone() }
}

/// Appends the history entries of `states`, in order.
fn append_entries(
    out: &mut Vec<HistoryEntry>,
    pipeline_id: Option<PipelineId>,
    frame_id: FrameId,
    states: &Vec<FrameState>,
)
    ensures
        final(out)@ == old(out)@ + entries_of(pipeline_id, frame_id, states@),
{
    let ghost start = out@;
    for i in 0..states.len()
        invariant
            out@ == start + entries_of(pipeline_id, frame_id, states@.take(i as int)),
    {
        out.push(entry_from(pipeline_id, frame_id, &states[i]));
        assert(states@.take(i + 1) =~= states@.take(i as int).push(states@[i as int]));
        assert(entries_of(pipeline_id, frame_id, states@.take(i + 1)) =~= entries_of(
            pipeline_id,
            frame_id,
            states@.take(i as int),
        ).push(entry_of(pipeline_id, frame_id, states@[i as int])));
    }
    assert(states@.take(states@.len() as int) =~= states@);
}

/// Appends the history entries of `states`, last first.
fn append_entries_reversed(
    out: &mut Vec<HistoryEntry>,
    pipeline_id: Option<PipelineId>,
    frame_id: FrameId,
    states: &Vec<FrameState>,
)
    ensures
        final(out)@ == old(out)@ + entries_of(pipeline_id, frame_id, states@.reverse()),
{
    let ghost start = out@;
    let mut i: usize = states.len();
    while i > 0
        invariant
            i <= states@.len(),
            out@ == start + entries_of(pipeline_id, frame_id, states@.skip(i as int).reverse()),
        decreases i,
    {
        i = i - 1;
        out.push(entry_from(pipeline_id, frame_id, &states[i]));
        assert(states@.skip(i as int).reverse() =~= states@.skip(i + 1).reverse().push(states@[i as int]));
        assert(entries_of(pipeline_id, frame_id, states@.skip(i as int).reverse()) =~= entries_of(
            pipeline_id,
            frame_id,
            states@.skip(i + 1).reverse(),
        ).push(entry_of(pipeline_id, frame_id, states@[i as int])));
    }
    assert(states@.skip(0) =~= states@);
}

impl FrameStateGroup {
    /// Appends the listing of this group.
    fn append_listing(&self, out: &mut Vec<HistoryEntry>)
        ensures
            final(out)@ == old(out)@ + listing(self@),
    {
        let ghost start = out@;
        append_entries(out, self.pipeline_id, self.frame_id, &self.entries.past);
        out.push(entry_from(self.pipeline_id, self.frame_id, &self.entries.current));
        append_entries(out, self.pipeline_id, self.frame_id, &self.entries.future);
        proof {
            let e = self@.entries;
            let p = self.pipeline_id;
            let f = self.frame_id;
            assert(entries_of(p, f, e.past + seq![e.current] + e.future) =~= entries_of(p, f, e.past).push(
                entry_of(p, f, e.current),
            ) + entries_of(p, f, e.future));
            assert(out@ =~= start + listing(self@));
        }
    }
}

/// The listings of the first `k + 1` groups are those of the first `k`
/// followed by that of group `k`.
proof fn lemma_listings_push(groups: Seq<GroupView>, k: int)
    requires
        0 <= k < groups.len(),
    ensures
        listings(groups.take(k + 1)) == listings(groups.take(k)) + listing(groups[k]),
{
    let m = groups.take(k).map_values(|g: GroupView| listing(g));
    assert(groups.take(k + 1).map_values(|g: GroupView| listing(g)) =~= m.push(listing(groups[k])));
    m.lemma_flatten_push(listing(groups[k]));
}

impl Frame {
    /// The entries after the current one, as `future_iter` lists them: the
    /// future of the current group (latest first), then each future group
    /// (latest group first) with its own listing.
    pub closed spec fn future_entries(&self) -> Seq<HistoryEntry> {
        entries_of(Some(self.pipeline_id), self.id, self.current_group.future@) + listings(
            group_views(self.future@),
        )
    }

    /// The entries before the current one, as `past_iter` lists them: the
    /// past of the current group (latest first), then each past group
    /// (latest group first) with its own listing.
    pub closed spec fn past_entries(&self) -> Seq<HistoryEntry> {
        entries_of(Some(self.pipeline_id), self.id, self.current_group.past@.reverse()) + listings(
            group_views(self.past@).reverse(),
        )
    }

    /// What `future_iter` and `past_iter` list, in terms of the timeline:
    /// `future_iter` the future of the current group (latest first), then
    /// the groups after the current one from the last to the first, each
    /// with its listing; `past_iter` the past of the current group (latest
    /// first), then the groups before the current one from the nearest to
    /// the first, each with its listing.
    pub proof fn lemma_listings_in_timeline(&self)
        ensures
            ({
                let tl = self.timeline();
                let i = self.current_index();
                &&& self.future_entries() == entries_of(tl[i].pipeline_id, tl[i].frame_id, tl[i].entries.future)
                    + listings(tl.skip(i + 1).reverse())
                &&& self.past_entries() == entries_of(tl[i].pipeline_id, tl[i].frame_id, tl[i].entries.past.reverse())
                    + listings(tl.take(i).reverse())
            }),
    {
        let tl = self.timeline();
        let i = self.current_index();
        assert(tl[i] == self.current_group_view());
        assert(tl.skip(i + 1).reverse() =~= group_views(self.future@));
        assert(tl.take(i) =~= group_views(self.past@));
    }

    /// The history entries after the current one.
    pub fn future_iter(&self) -> (r: Vec<HistoryEntry>)
        ensures
            r@ == self.future_entries(),
    {
        let mut r = Vec::new();
        append_entries(&mut r, Some(self.pipeline_id), self.id, &self.current_group.future);
        let ghost head = r@;
        let ghost groups = group_views(self.future@);
        for j in 0..self.future.len()
            invariant
                groups == group_views(self.future@),
                r@ == head + listings(groups.take(j as int)),
        {
            self.future[j].append_listing(&mut r);
            proof {
                lemma_listings_push(groups, j as int);
            }
        }
        assert(groups.take(groups.len() as int) =~= groups);
        r
    }

    /// The history entries before the current one.
    pub fn past_iter(&self) -> (r: Vec<HistoryEntry>)
        ensures
            r@ == self.past_entries(),
    {
        let mut r = Vec::new();
        append_entries_reversed(&mut r, Some(self.pipeline_id), self.id, &self.current_group.past);
        let ghost head = r@;
        let ghost groups = group_views(self.past@).reverse();
        let n: usize = self.past.len();
        for j in 0..n
            invariant
                n == self.past@.len(),
                groups == group_views(self.past@).reverse(),
                r@ == head + listings(groups.take(j as int)),
        {
            self.past[n - 1 - j].append_listing(&mut r);
            proof {
                assert(groups[j as int] == self.past@[n - 1 - j]@);
                lemma_listings_push(groups, j as int);
            }
        }
        assert(groups.take(groups.len() as int) =~= groups);
        r
    }
}

/// Represents a pending change in the frame tree, that will be applied
/// once the new pipeline has loaded and completed initial layout / paint.
pub struct FrameChange {
    /// The frame to change.
    pub frame_id: FrameId,
    /// The pipeline that was currently active at the time the change started.
    pub old_pipeline_id: Option<PipelineId>,
    /// The pipeline for the document being loaded.
    pub new_pipeline_id: PipelineId,
    /// The URL for the document being loaded.
    pub url: ServoUrl,
    /// Is the new document replacing the current document (e.g. a reload)
    /// or pushing it into the session history (e.g. a navigation)?
    pub replace: Option<HistoryEntry>,
}

/// Appends `ids` to `stack`, in order.
fn push_all(stack: &mut Vec<FrameId>, ids: &Vec<FrameId>)
    ensures
        final(stack)@ == old(stack)@ + ids@,
{
    let ghost start = stack@;
    for i in 0..ids.len()
        invariant
            stack@ == start + ids@.take(i as int),
    {
        stack.push(ids[i]);
        assert(ids@.take(i + 1) =~= ids@.take(i as int).push(ids@[i as int]));
    }
    assert(ids@.take(ids@.len() as int) =~= ids@);
}

/// The children of pipeline `pipeline_id`, where it is in `pipelines`;
/// none otherwise.
pub open spec fn children_of(pipelines: Map<u64, Pipeline>, pipeline_id: Option<PipelineId>) -> Seq<FrameId> {
    match pipeline_id {
        Some(p) => if pipelines.contains_key(p.spec_key()) {
            pipelines[p.spec_key()].children@
        } else {
            Seq::empty()
        },
        None => Seq::empty(),
    }
}

/// Whether frame `id` is in `frames` and its current pipeline in `pipelines`.
pub open spec fn is_live(frames: Map<u64, Frame>, pipelines: Map<u64, Pipeline>, id: FrameId) -> bool {
    frames.contains_key(id.spec_key()) && pipelines.contains_key(frames[id.spec_key()].pipeline().spec_key())
}

/// The index of the last of the first `n` frames of `stack` for which
/// `live` holds; -1 where there is none.
pub open spec fn last_index_where(stack: Seq<FrameId>, n: int, live: spec_fn(FrameId) -> bool) -> int
    decreases n,
{
    if n <= 0 {
        -1
    } else if live(stack[n - 1]) {
        n - 1
    } else {
        last_index_where(stack, n - 1, live)
    }
}

/// An iterator over a frame tree, returning the fully active frames in
/// depth-first order. Note that this iterator only returns the fully
/// active frames, that is ones where every ancestor frame is
/// in the currently active pipeline of its parent frame.
pub struct FrameTreeIterator<'a> {
    /// The frames still to iterate over.
    pub stack: Vec<FrameId>,
    /// The set of all frames, by the key of their id.
    pub frames: &'a HashMap<u64, Frame>,
    /// The set of all pipelines, by the key of their id.  We use this to
    /// find the active children of a frame, which are the iframes in the
    /// currently active document.
    pub pipelines: &'a HashMap<u64, Pipeline>,
}

impl<'a> FrameTreeIterator<'a> {
    /// The next fully active frame: the frames on top of the stack that
    /// are closed (not in `frames`) or whose pipeline is closed (not in
    /// `pipelines`) are dropped; the first other frame is returned, and the
    /// children of its current pipeline are pushed on the stack.
    pub fn next(&mut self) -> (r: Option<&'a Frame>)
        ensures
            final(self).frames == old(self).frames,
            final(self).pipelines == old(self).pipelines,
            ({
                let s = old(self).stack@;
                let frames = old(self).frames@;
                let pipelines = old(self).pipelines@;
                let k = last_index_where(s, s.len() as int, active_present(frames, pipelines));
                if k < 0 {
                    &&& r is None
                    &&& final(self).stack@ == Seq::<FrameId>::empty()
                } else {
                    let frame = frames[s[k].spec_key()];
                    &&& r matches Some(f) && *f == frame
                    &&& final(self).stack@ == s.take(k) + active_kids(frames, pipelines)(s[k])
                }
            }),
    {
        broadcast use vstd::std_specs::hash::group_hash_axioms;

        let ghost s = self.stack@;
        let ghost live = active_present(self.frames@, self.pipelines@);
        let frames: &'a HashMap<u64, Frame> = self.frames;
        let pipelines: &'a HashMap<u64, Pipeline> = self.pipelines;
        loop
            invariant
                frames == self.frames,
                pipelines == self.pipelines,
                self.frames == old(self).frames,
                self.pipelines == old(self).pipelines,
                s == old(self).stack@,
                live == active_present(self.frames@, self.pipelines@),
                self.stack@.len() <= s.len(),
                self.stack@ == s.take(self.stack@.len() as int),
                last_index_where(s, s.len() as int, live) == last_index_where(s, self.stack@.len() as int, live),
            decreases self.stack@.len(),
        {
            let ghost n = self.stack@.len() as int;
            let frame_id = match self.stack.pop() {
                Some(frame_id) => frame_id,
                None => {
                    return None;
                },
            };
            assert(frame_id == s[n - 1]);
            assert(self.stack@ =~= s.take(n - 1));
            let frame = match frames.get(&frame_id.key()) {
                Some(frame) => frame,
                None => {
                    continue;
                },
            };
            let pipeline = match pipelines.get(&frame.pipeline_id.key()) {
                Some(pipeline) => pipeline,
                None => {
                    continue;
                },
            };
            push_all(&mut self.stack, &pipeline.children);
            return Some(frame);
        }
    }
}

/// The children of every pipeline of a frame's session history that is in
/// `pipelines`: those of the past groups, then of the future groups (in
/// the order of their fields), then of the current pipeline.
pub open spec fn all_children(frame: Frame, pipelines: Map<u64, Pipeline>) -> Seq<FrameId> {
    (frame.past_groups() + frame.future_groups()).map_values(
        |g: FrameStateGroup| children_of(pipelines, g@.pipeline_id),
    ).flatten() + children_of(pipelines, Some(frame.pipeline()))
}

/// An iterator over a frame tree, returning all frames in depth-first
/// order. Note that this iterator returns all frames, not just the
/// fully active ones.
pub struct FullFrameTreeIterator<'a> {
    /// The frames still to iterate over.
    pub stack: Vec<FrameId>,
    /// The set of all frames, by the key of their id.
    pub frames: &'a HashMap<u64, Frame>,
    /// The set of all pipelines, by the key of their id.  We use this to
    /// find the children of a frame, which are the iframes in all
    /// documents in the session history.
    pub pipelines: &'a HashMap<u64, Pipeline>,
}

/// Appends the children of pipeline `pipeline_id`, where it is in `pipelines`.
fn push_children(stack: &mut Vec<FrameId>, pipelines: &HashMap<u64, Pipeline>, pipeline_id: Option<PipelineId>)
    ensures
        final(stack)@ == old(stack)@ + children_of(pipelines@, pipeline_id),
{
    broadcast use vstd::std_specs::hash::group_hash_axioms;

    if let Some(pid) = pipeline_id {
        if let Some(pipeline) = pipelines.get(&pid.key()) {
            push_all(stack, &pipeline.children);
            return;
        }
    }
    assert(stack@ =~= stack@ + Seq::<FrameId>::empty());
}

/// Appends the children of the pipelines of `groups` that are in `pipelines`.
fn push_group_children(stack: &mut Vec<FrameId>, pipelines: &HashMap<u64, Pipeline>, groups: &Vec<FrameStateGroup>)
    ensures
        final(stack)@ == old(stack)@ + groups@.map_values(
            |g: FrameStateGroup| children_of(pipelines@, g@.pipeline_id),
        ).flatten(),
{
    let ghost start = stack@;
    let ghost f = |g: FrameStateGroup| children_of(pipelines@, g@.pipeline_id);
    for i in 0..groups.len()
        invariant
            f == (|g: FrameStateGroup| children_of(pipelines@, g@.pipeline_id)),
            stack@ == start + groups@.take(i as int).map_values(f).flatten(),
    {
        push_children(stack, pipelines, groups[i].pipeline_id);
        proof {
            let m = groups@.take(i as int).map_values(f);
            assert(groups@.take(i + 1).map_values(f) =~= m.push(f(groups@[i as int])));
            m.lemma_flatten_push(f(groups@[i as int]));
        }
    }
    assert(groups@.take(groups@.len() as int) =~= groups@);
}

impl<'a> FullFrameTreeIterator<'a> {
    /// The next frame: the frames on top of the stack that are closed (not
    /// in `frames`) are dropped; the first other frame is returned, and the
    /// children of all pipelines of its session history are pushed on the
    /// stack.
    pub fn next(&mut self) -> (r: Option<&'a Frame>)
        ensures
            final(self).frames == old(self).frames,
            final(self).pipelines == old(self).pipelines,
            ({
                let s = old(self).stack@;
                let frames = old(self).frames@;
                let pipelines = old(self).pipelines@;
                let k = last_index_where(s, s.len() as int, full_present(frames));
                if k < 0 {
                    &&& r is None
                    &&& final(self).stack@ == Seq::<FrameId>::empty()
                } else {
                    let frame = frames[s[k].spec_key()];
                    &&& r matches Some(f) && *f == frame
                    &&& final(self).stack@ == s.take(k) + full_kids(frames, pipelines)(s[k])
                }
            }),
    {
        broadcast use vstd::std_specs::hash::group_hash_axioms;

        let ghost s = self.stack@;
        let ghost present = full_present(self.frames@);
        let frames: &'a HashMap<u64, Frame> = self.frames;
        let pipelines: &'a HashMap<u64, Pipeline> = self.pipelines;
        loop
            invariant
                frames == self.frames,
                pipelines == self.pipelines,
                self.frames == old(self).frames,
                self.pipelines == old(self).pipelines,
                s == old(self).stack@,
                present == full_present(self.frames@),
                self.stack@.len() <= s.len(),
                self.stack@ == s.take(self.stack@.len() as int),
                last_index_where(s, s.len() as int, present) == last_index_where(s, self.stack@.len() as int, present),
            decreases self.stack@.len(),
        {
            let ghost n = self.stack@.len() as int;
            let frame_id = match self.stack.pop() {
                Some(frame_id) => frame_id,
                None => {
                    return None;
                },
            };
            assert(frame_id == s[n - 1]);
            assert(self.stack@ =~= s.take(n - 1));
            let frame = match frames.get(&frame_id.key()) {
                Some(frame) => frame,
                None => {
                    continue;
                },
            };
            let ghost before = self.stack@;
            push_group_children(&mut self.stack, pipelines, &frame.past);
            push_group_children(&mut self.stack, pipelines, &frame.future);
            push_children(&mut self.stack, pipelines, Some(frame.pipeline_id));
            proof {
                let f = |g: FrameStateGroup| children_of(pipelines@, g@.pipeline_id);
                vstd::seq_lib::lemma_flatten_concat(frame.past@.map_values(f), frame.future@.map_values(f));
                assert((frame.past@ + frame.future@).map_values(f) =~= frame.past@.map_values(f)
                    + frame.future@.map_values(f));
                assert(self.stack@ =~= before + all_children(*frame, pipelines@));
            }
            return Some(frame);
        }
    }
}

/// A new frame's session history is in chronological order.
pub proof fn lemma_new_is_sorted(pipeline_id: Option<PipelineId>, frame_id: FrameId, state: FrameState)
    ensures
        timeline_sorted(seq![single_group(pipeline_id, frame_id, state)]),
        timeline_strictly_sorted(seq![single_group(pipeline_id, frame_id, state)]),
{
    let g = single_group(pipeline_id, frame_id, state);
    assert(chrono(g.entries) =~= seq![state]);
}

/// Dropping the groups after the current one (`remove_forward_entries`)
/// keeps a session history in chronological order.
pub proof fn lemma_prefix_keeps_order(tl: Seq<GroupView>, n: int)
    requires
        timeline_sorted(tl),
        0 <= n <= tl.len(),
    ensures
        timeline_sorted(tl.take(n)),
        timeline_strictly_sorted(tl) ==> timeline_strictly_sorted(tl.take(n)),
{
    let p = tl.take(n);
    assert forall|g: int| 0 <= g < p.len() implies #[trigger] p[g] == tl[g] by {}
    assert forall|g: int, i: int, j: int|
        0 <= g < p.len() && 0 <= i <= j < group_len(p[g]) implies #[trigger] instant_at(p[g], i)
            <= #[trigger] instant_at(p[g], j) by {
        assert(p[g] == tl[g]);
    }
    assert forall|g: int, h: int, i: int, j: int|
        0 <= g < h < p.len() && 0 <= i < group_len(p[g]) && 0 <= j < group_len(p[h]) implies #[trigger] instant_at(
        p[g],
        i,
    ) <= #[trigger] instant_at(p[h], j) by {
        assert(p[g] == tl[g] && p[h] == tl[h]);
    }
    if timeline_strictly_sorted(tl) {
        assert forall|g: int, i: int, j: int|
            0 <= g < p.len() && 0 <= i < j < group_len(p[g]) implies #[trigger] instant_at(p[g], i)
                < #[trigger] instant_at(p[g], j) by {
            assert(p[g] == tl[g]);
        }
        assert forall|g: int, h: int, i: int, j: int|
            0 <= g < h < p.len() && 0 <= i < group_len(p[g]) && 0 <= j < group_len(p[h]) implies #[trigger] instant_at(
            p[g],
            i,
        ) < #[trigger] instant_at(p[h], j) by {
            assert(p[g] == tl[g] && p[h] == tl[h]);
        }
    }
}

/// A strictly ordered session history is in chronological order.
pub proof fn lemma_strictly_sorted_is_sorted(tl: Seq<GroupView>)
    requires
        timeline_strictly_sorted(tl),
    ensures
        timeline_sorted(tl),
{
    assert forall|g: int, i: int, j: int|
        0 <= g < tl.len() && 0 <= i <= j < group_len(tl[g]) implies #[trigger] instant_at(tl[g], i)
            <= #[trigger] instant_at(tl[g], j) by {
        if i < j {
            assert(instant_at(tl[g], i) < instant_at(tl[g], j));
        }
    }
}

/// A load at the end of a strictly ordered session history, at an instant
/// later than any entry, keeps it strictly ordered.
pub proof fn lemma_load_keeps_strict_order(tl: Seq<GroupView>, g: GroupView)
    requires
        timeline_strictly_sorted(tl),
        tl.len() > 0,
        chrono(g.entries).len() == 1,
        forall|h: int, i: int|
            0 <= h < tl.len() && 0 <= i < group_len(tl[h]) ==> #[trigger] instant_at(tl[h], i) < instant_at(g, 0),
    ensures
        timeline_strictly_sorted(loaded(tl, tl.len() - 1, g)),
{
    let n = tl.len() as int;
    let after = loaded(tl, n - 1, g);
    assert(after =~= tl.push(g));
    assert forall|a: int, i: int, j: int|
        0 <= a < after.len() && 0 <= i < j < group_len(after[a]) implies #[trigger] instant_at(after[a], i)
            < #[trigger] instant_at(after[a], j) by {
        if a < n {
            assert(after[a] == tl[a]);
        }
    }
    assert forall|a: int, b: int, i: int, j: int|
        0 <= a < b < after.len() && 0 <= i < group_len(after[a]) && 0 <= j < group_len(after[b]) implies #[trigger] instant_at(
        after[a],
        i,
    ) < #[trigger] instant_at(after[b], j) by {
        assert(after[a] == tl[a]);
        if b < n {
            assert(after[b] == tl[b]);
        } else {
            assert(j == 0);
            assert(instant_at(tl[a], i) < instant_at(g, 0));
        }
    }
}

/// A load at the end of a session history in chronological order, at an
/// instant no earlier than any entry, keeps it in chronological order.
pub proof fn lemma_load_keeps_order(tl: Seq<GroupView>, g: GroupView)
    requires
        timeline_sorted(tl),
        tl.len() > 0,
        chrono(g.entries).len() == 1,
        forall|h: int, i: int|
            0 <= h < tl.len() && 0 <= i < group_len(tl[h]) ==> #[trigger] instant_at(tl[h], i) <= instant_at(g, 0),
    ensures
        timeline_sorted(loaded(tl, tl.len() - 1, g)),
{
    let n = tl.len() as int;
    let after = loaded(tl, n - 1, g);
    assert(after =~= tl.push(g));
    assert forall|a: int, i: int, j: int|
        0 <= a < after.len() && 0 <= i <= j < group_len(after[a]) implies #[trigger] instant_at(after[a], i)
            <= #[trigger] instant_at(after[a], j) by {
        if a < n {
            assert(after[a] == tl[a]);
        }
    }
    assert forall|a: int, b: int, i: int, j: int|
        0 <= a < b < after.len() && 0 <= i < group_len(after[a]) && 0 <= j < group_len(after[b]) implies #[trigger] instant_at(
        after[a],
        i,
    ) <= #[trigger] instant_at(after[b], j) by {
        assert(after[a] == tl[a]);
        if b < n {
            assert(after[b] == tl[b]);
        } else {
            assert(j == 0);
            assert(instant_at(tl[a], i) <= instant_at(g, 0));
        }
    }
}

/// The listings of two sequences of groups, one after the other.
proof fn lemma_listings_concat(a: Seq<GroupView>, b: Seq<GroupView>)
    ensures
        listings(a + b) == listings(a) + listings(b),
{
    let f = |g: GroupView| listing(g);
    assert((a + b).map_values(f) =~= a.map_values(f) + b.map_values(f));
    vstd::seq_lib::lemma_flatten_concat(a.map_values(f), b.map_values(f));
}

/// Listing groups in reverse order lists the same entries.
proof fn lemma_listings_reverse(s: Seq<GroupView>)
    ensures
        listings(s.reverse()).to_multiset() == listings(s).to_multiset(),
    decreases s.len(),
{
    broadcast use vstd::seq_lib::lemma_multiset_commutative;

    if s.len() > 0 {
        let init = s.drop_last();
        let g = s.last();
        lemma_listings_reverse(init);
        assert(s =~= init + seq![g]);
        assert(s.reverse() =~= seq![g] + init.reverse());
        lemma_listings_concat(seq![g], init.reverse());
        lemma_listings_concat(init, seq![g]);
        assert(listings(seq![g]) == listing(g)) by {
            let m = seq![g].map_values(|x: GroupView| listing(x));
            assert(m =~= seq![listing(g)]);
            m.lemma_flatten_one_element();
        }
        assert(listings(s.reverse()) == listing(g) + listings(init.reverse()));
        assert(listings(s) == listings(init) + listing(g));
        assert((listing(g) + listings(init.reverse())).to_multiset() =~= (listings(init) + listing(g)).to_multiset());
    } else {
        assert(s.reverse() =~= s);
    }
}

impl Frame {
    /// The entries that `past_iter`, `current` and `future_iter` list are,
    /// all together, the entries of the session history, each once.
    pub proof fn lemma_listing_covers_history(&self)
        ensures
            (self.past_entries() + seq![entry_of(Some(self.pipeline()), self.frame_id(), self.current_state())]
                + self.future_entries()).to_multiset() == listings(self.timeline()).to_multiset(),
    {
        broadcast use vstd::seq_lib::lemma_multiset_commutative;

        let p = Some(self.pipeline_id);
        let f = self.id;
        let cg = self.current_group@;
        let pv = group_views(self.past@);
        let fv = group_views(self.future@);
        let cur = seq![entry_of(p, f, cg.current)];
        lemma_listings_concat(pv + seq![self.current_group_view()], fv.reverse());
        lemma_listings_concat(pv, seq![self.current_group_view()]);
        assert(listings(seq![self.current_group_view()]) == listing(self.current_group_view())) by {
            let m = seq![self.current_group_view()].map_values(|x: GroupView| listing(x));
            assert(m =~= seq![listing(self.current_group_view())]);
            m.lemma_flatten_one_element();
        }
        assert(listing(self.current_group_view()) =~= entries_of(p, f, cg.past) + cur + entries_of(p, f, cg.future));
        assert(entries_of(p, f, cg.past.reverse()) =~= entries_of(p, f, cg.past).reverse());
        entries_of(p, f, cg.past).lemma_reverse_to_multiset();
        lemma_listings_reverse(pv);
        lemma_listings_reverse(fv);
        let a = entries_of(p, f, cg.past);
        let b = entries_of(p, f, cg.future);
        assert((self.past_entries() + cur + self.future_entries()).to_multiset() =~= a.to_multiset().add(
            listings(pv).to_multiset(),
        ).add(cur.to_multiset()).add(b.to_multiset()).add(listings(fv).to_multiset()));
        assert(listings(self.timeline()).to_multiset() =~= listings(pv).to_multiset().add(a.to_multiset()).add(
            cur.to_multiset(),
        ).add(b.to_multiset()).add(listings(fv).to_multiset()));
    }
}

/// Within a sorted group, the entry of instant `t` nearest to the current
/// entry is unique.
proof fn lemma_nearest_unique(tl: Seq<GroupView>, g: int, k1: int, k2: int, t: u64)
    requires
        timeline_sorted(tl),
        0 <= g < tl.len(),
        nearest_entry(tl[g], k1, t),
        nearest_entry(tl[g], k2, t),
    ensures
        k1 == k2,
{
    let q = position(tl[g].entries);
    if instant_at(tl[g], q) != t && k1 != k2 {
        let (a, b) = if k1 < k2 { (k1, k2) } else { (k2, k1) };
        if a < q && q < b {
            assert(instant_at(tl[g], a) <= instant_at(tl[g], q));
            assert(instant_at(tl[g], q) <= instant_at(tl[g], b));
        } else if q < a {
            assert(q < a < b);
        } else {
            assert(a < b < q);
        }
    }
}

/// A traversal of a sorted session history has one outcome: the
/// conditions of `traversed` determine the new timeline and its current
/// index.
pub proof fn lemma_traversal_determined(
    before: Seq<GroupView>,
    i: int,
    a1: Seq<GroupView>,
    j1: int,
    a2: Seq<GroupView>,
    j2: int,
    t: u64,
    frame_id: FrameId,
    pipeline_id: PipelineId,
)
    requires
        timeline_sorted(before),
        0 <= i < before.len(),
        traversed(before, i, a1, j1, t, frame_id, pipeline_id),
        traversed(before, i, a2, j2, t, frame_id, pipeline_id),
    ensures
        j1 == j2,
        a1 == a2,
{
    let cur = before[i].entries.current.instant;
    assert(group_has(before[j1], t)) by {
        assert(instant_at(before[j1], position(a1[j1].entries)) == t);
    }
    assert(group_has(before[j2], t)) by {
        assert(instant_at(before[j2], position(a2[j2].entries)) == t);
    }
    // A group between the start and the nearer end would be passed
    // through by the farther traversal, yet it holds `t`.
    if j1 < j2 {
        if t > cur {
            assert(passed_through(before[j1], a2[j1], frame_id, true));
        } else {
            assert(passed_through(before[j2], a1[j2], frame_id, false));
        }
    }
    if j2 < j1 {
        if t > cur {
            assert(passed_through(before[j2], a1[j2], frame_id, true));
        } else {
            assert(passed_through(before[j1], a2[j1], frame_id, false));
        }
    }
    assert(j1 == j2);
    let j = j1;
    assert forall|g: int| 0 <= g < before.len() implies #[trigger] a1[g] == a2[g] by {
        if g == j {
            lemma_nearest_unique(before, j, position(a1[j].entries), position(a2[j].entries), t);
            lemma_entries_ext(a1[j].entries, a2[j].entries);
        } else if !(g < i && g < j || g > i && g > j) {
            let forward = t > cur;
            assert(passed_through(before[g], a1[g], frame_id, forward));
            assert(passed_through(before[g], a2[g], frame_id, forward));
            lemma_entries_ext(a1[g].entries, a2[g].entries);
        }
    }
    assert(a1 =~= a2);
}

/// Whether the entries of a timeline are in strictly increasing order of
/// their instants.
pub open spec fn timeline_strictly_sorted(tl: Seq<GroupView>) -> bool {
    &&& forall|g: int, i: int, j: int|
        0 <= g < tl.len() && 0 <= i < j < group_len(tl[g]) ==> #[trigger] instant_at(tl[g], i)
            < #[trigger] instant_at(tl[g], j)
    &&& forall|g: int, h: int, i: int, j: int|
        0 <= g < h < tl.len() && 0 <= i < group_len(tl[g]) && 0 <= j < group_len(tl[h])
            ==> #[trigger] instant_at(tl[g], i) < #[trigger] instant_at(tl[h], j)
}

/// Entry `k` of a group's listing is the entry at some position of the
/// group's chronological order, under the group's pipeline and frame.
proof fn lemma_listing_entry(g: GroupView, k: int)
    requires
        0 <= k < listing(g).len(),
    ensures
        exists|i: int|
            0 <= i < group_len(g) && listing(g)[k] == #[trigger] entry_of(
                g.pipeline_id,
                g.frame_id,
                chrono(g.entries)[i],
            ),
{
    let e = g.entries;
    let raw = e.past + seq![e.current] + e.future;
    let c = chrono(e);
    let n = e.past.len() as int;
    assert(listing(g)[k] == entry_of(g.pipeline_id, g.frame_id, raw[k]));
    let i = if k <= n {
        k
    } else {
        n + 1 + (e.future.len() - 1 - (k - n - 1))
    };
    if k > n {
        let m = k - n - 1;
        assert(raw[k] == e.future[m]);
        assert(c[i] == e.future[m]);
    }
    assert(raw[k] == c[i]);
    assert(listing(g)[k] == entry_of(g.pipeline_id, g.frame_id, chrono(g.entries)[i]));
}

/// Every entry that `listings(groups)` lists satisfies `p`, when every
/// entry of every group, under its group's pipeline and frame, does.
proof fn lemma_listings_all(groups: Seq<GroupView>, p: spec_fn(HistoryEntry) -> bool)
    requires
        forall|g: int, i: int|
            0 <= g < groups.len() && 0 <= i < group_len(groups[g]) ==> p(
                #[trigger] entry_of(groups[g].pipeline_id, groups[g].frame_id, chrono(groups[g].entries)[i]),
            ),
    ensures
        forall|k: int| 0 <= k < listings(groups).len() ==> p(#[trigger] listings(groups)[k]),
    decreases groups.len(),
{
    if groups.len() == 0 {
        assert(listings(groups) =~= Seq::<HistoryEntry>::empty()) by {
            assert(groups.map_values(|g: GroupView| listing(g)) =~= Seq::<Seq<HistoryEntry>>::empty());
        }
    } else {
        let init = groups.drop_last();
        let last = groups.last();
        assert(groups =~= init + seq![last]);
        lemma_listings_all(init, p);
        lemma_listings_concat(init, seq![last]);
        assert(listings(seq![last]) == listing(last)) by {
            let m = seq![last].map_values(|x: GroupView| listing(x));
            assert(m =~= seq![listing(last)]);
            m.lemma_flatten_one_element();
        }
        let a = listings(init);
        assert forall|k: int| 0 <= k < listings(groups).len() implies p(#[trigger] listings(groups)[k]) by {
            if k < a.len() {
                assert(listings(groups)[k] == a[k]);
            } else {
                assert(listings(groups)[k] == listing(last)[k - a.len()]);
                lemma_listing_entry(last, k - a.len());
                let i = choose|i: int|
                    0 <= i < group_len(last) && listing(last)[k - a.len()] == #[trigger] entry_of(
                        last.pipeline_id,
                        last.frame_id,
                        chrono(last.entries)[i],
                    );
                assert(groups[groups.len() - 1] == last);
                assert(p(entry_of(groups[groups.len() - 1].pipeline_id, groups[groups.len() - 1].frame_id, chrono(groups[groups.len() - 1].entries)[i])));
            }
        }
    }
}

impl Frame {
    /// In a session history in chronological order, `past_iter` lists
    /// entries no later than the current one and `future_iter` entries no
    /// earlier; strictly so in a strictly ordered history. Where every
    /// group belongs to the frame, so does every listed entry.
    pub proof fn lemma_listing_order(&self)
        requires
            timeline_sorted(self.timeline()),
        ensures
            forall|k: int|
                0 <= k < self.past_entries().len() ==> #[trigger] self.past_entries()[k].instant
                    <= self.current_state().instant,
            forall|k: int|
                0 <= k < self.future_entries().len() ==> #[trigger] self.future_entries()[k].instant
                    >= self.current_state().instant,
            timeline_strictly_sorted(self.timeline()) ==> forall|k: int|
                0 <= k < self.past_entries().len() ==> #[trigger] self.past_entries()[k].instant
                    < self.current_state().instant,
            timeline_strictly_sorted(self.timeline()) ==> forall|k: int|
                0 <= k < self.future_entries().len() ==> #[trigger] self.future_entries()[k].instant
                    > self.current_state().instant,
            (forall|g: int| 0 <= g < self.timeline().len() ==> #[trigger] self.timeline()[g].frame_id == self.frame_id())
                ==> (forall|k: int|
                0 <= k < self.past_entries().len() ==> #[trigger] self.past_entries()[k].frame_id == self.frame_id())
                && (forall|k: int|
                0 <= k < self.future_entries().len() ==> #[trigger] self.future_entries()[k].frame_id
                    == self.frame_id()),
    {
        let tl = self.timeline();
        let gc = self.current_index();
        let n = tl.len() as int;
        let c = self.current_state().instant;
        let pid = Some(self.pipeline_id);
        let f = self.id;
        let cg = self.current_group@;
        let pv = group_views(self.past@);
        let fv = group_views(self.future@);
        let strict = timeline_strictly_sorted(tl);
        let same_frame = forall|g: int| 0 <= g < tl.len() ==> #[trigger] tl[g].frame_id == f;
        assert(tl[gc] == self.current_group_view());
        // The predicates that the entries before and after the current one satisfy.
        let before = |e: HistoryEntry| e.instant <= c && (strict ==> e.instant < c) && (same_frame ==> e.frame_id == f);
        let after = |e: HistoryEntry| e.instant >= c && (strict ==> e.instant > c) && (same_frame ==> e.frame_id == f);
        assert forall|g: int, i: int| 0 <= g < pv.reverse().len() && 0 <= i < group_len(pv.reverse()[g]) implies before(
            #[trigger] entry_of(pv.reverse()[g].pipeline_id, pv.reverse()[g].frame_id, chrono(pv.reverse()[g].entries)[i]),
        ) by {
            let h = pv.len() - 1 - g;
            assert(pv.reverse()[g] == tl[h]);
            assert(instant_at(tl[h], i) <= instant_at(tl[gc], cg.past.len() as int));
            if strict {
                assert(instant_at(tl[h], i) < instant_at(tl[gc], cg.past.len() as int));
            }
        }
        lemma_listings_all(pv.reverse(), before);
        assert forall|g: int, i: int| 0 <= g < fv.len() && 0 <= i < group_len(fv[g]) implies after(
            #[trigger] entry_of(fv[g].pipeline_id, fv[g].frame_id, chrono(fv[g].entries)[i]),
        ) by {
            let h = n - 1 - g;
            self.lemma_timeline_at(h);
            assert(fv[g] == tl[h]);
            assert(instant_at(tl[gc], cg.past.len() as int) <= instant_at(tl[h], i));
            if strict {
                assert(instant_at(tl[gc], cg.past.len() as int) < instant_at(tl[h], i));
            }
        }
        lemma_listings_all(fv, after);
        let head_past = entries_of(pid, f, cg.past.reverse());
        let head_future = entries_of(pid, f, cg.future);
        assert forall|k: int| 0 <= k < head_past.len() implies before(#[trigger] head_past[k]) by {
            let m = cg.past.len() - 1 - k;
            assert(head_past[k] == entry_of(pid, f, chrono(cg)[m]));
            assert(instant_at(tl[gc], m) <= instant_at(tl[gc], cg.past.len() as int));
            if strict {
                assert(instant_at(tl[gc], m) < instant_at(tl[gc], cg.past.len() as int));
            }
        }
        assert forall|k: int| 0 <= k < head_future.len() implies after(#[trigger] head_future[k]) by {
            let m = cg.past.len() + 1 + (cg.future.len() - 1 - k);
            assert(head_future[k] == entry_of(pid, f, chrono(cg)[m]));
            assert(instant_at(tl[gc], cg.past.len() as int) <= instant_at(tl[gc], m));
            if strict {
                assert(instant_at(tl[gc], cg.past.len() as int) < instant_at(tl[gc], m));
            }
        }
        assert(self.past_entries() == head_past + listings(pv.reverse()));
        assert(self.future_entries() == head_future + listings(fv));
        assert forall|k: int| 0 <= k < self.past_entries().len() implies before(#[trigger] self.past_entries()[k]) by {
            if k < head_past.len() {
                assert(self.past_entries()[k] == head_past[k]);
            } else {
                assert(self.past_entries()[k] == listings(pv.reverse())[k - head_past.len()]);
            }
        }
        assert forall|k: int| 0 <= k < self.future_entries().len() implies after(#[trigger] self.future_entries()[k]) by {
            if k < head_future.len() {
                assert(self.future_entries()[k] == head_future[k]);
            } else {
                assert(self.future_entries()[k] == listings(fv)[k - head_future.len()]);
            }
        }
    }
}

/// Traversing away and then back to the instant of the entry that was
/// current, in a strictly ordered session history, returns to the same
/// group and entry, and every group keeps its entries.
pub proof fn lemma_traversal_round_trip(
    t0: Seq<GroupView>,
    i0: int,
    t1: Seq<GroupView>,
    i1: int,
    away: u64,
    frame_id: FrameId,
    p1: PipelineId,
    t2: Seq<GroupView>,
    i2: int,
    p0: PipelineId,
)
    requires
        timeline_strictly_sorted(t0),
        0 <= i0 < t0.len(),
        traversed(t0, i0, t1, i1, away, frame_id, p1),
        traversed(t1, i1, t2, i2, t0[i0].entries.current.instant, frame_id, p0),
    ensures
        i2 == i0,
        t2[i2].entries == t0[i0].entries,
        t2[i2].pipeline_id == Some(p0),
        t2[i2].frame_id == frame_id,
        t2.len() == t0.len(),
        forall|g: int| 0 <= g < t0.len() ==> #[trigger] chrono(t2[g].entries) == chrono(t0[g].entries),
{
    let c0 = t0[i0].entries.current.instant;
    let q = position(t0[i0].entries);
    lemma_traversal_keeps_history(t0, i0, t1, i1, away, frame_id, p1);
    lemma_traversal_keeps_history(t1, i1, t2, i2, c0, frame_id, p0);
    let k2 = position(t2[i2].entries);
    assert(chrono(t0[i0].entries)[q] == t0[i0].entries.current);
    assert(instant_at(t0[i0], q) == c0);
    assert(chrono(t1[i2].entries) == chrono(t0[i2].entries));
    assert(instant_at(t0[i2], k2) == c0);
    if i2 < i0 {
        assert(instant_at(t0[i2], k2) < instant_at(t0[i0], q));
    } else if i2 > i0 {
        assert(instant_at(t0[i0], q) < instant_at(t0[i2], k2));
    }
    if k2 < q {
        assert(instant_at(t0[i0], k2) < instant_at(t0[i0], q));
    } else if k2 > q {
        assert(instant_at(t0[i0], q) < instant_at(t0[i0], k2));
    }
    lemma_entries_ext(t2[i2].entries, t0[i0].entries);
}

/// Loading at an instant later than every entry of a strictly ordered
/// session history with no future, then traversing back to the entry that
/// was current, leaves the earlier groups as they were, the old current
/// group current again (with the traversal's pipeline), and the loaded
/// group as the one future group.
pub proof fn lemma_load_then_back(
    tl: Seq<GroupView>,
    g: GroupView,
    after: Seq<GroupView>,
    j: int,
    frame_id: FrameId,
    pipeline_id: PipelineId,
)
    requires
        timeline_strictly_sorted(tl),
        tl.len() > 0,
        tl[tl.len() - 1].frame_id == frame_id,
        g.frame_id == frame_id,
        group_len(g) == 1,
        forall|h: int, i: int|
            0 <= h < tl.len() && 0 <= i < group_len(tl[h]) ==> #[trigger] instant_at(tl[h], i) < instant_at(g, 0),
        traversed(
            loaded(tl, tl.len() - 1, g),
            tl.len() as int,
            after,
            j,
            tl[tl.len() - 1].entries.current.instant,
            frame_id,
            pipeline_id,
        ),
    ensures
        j == tl.len() - 1,
        after.len() == tl.len() + 1,
        forall|h: int| 0 <= h < tl.len() - 1 ==> #[trigger] after[h] == tl[h],
        after[j] == (GroupView { pipeline_id: Some(pipeline_id), ..tl[j] }),
        after[tl.len() as int] == g,
{
    let n = tl.len() as int;
    let before = loaded(tl, n - 1, g);
    assert(before =~= tl.push(g));
    let c0 = tl[n - 1].entries.current.instant;
    let q = position(tl[n - 1].entries);
    assert(chrono(tl[n - 1].entries)[q] == tl[n - 1].entries.current);
    assert(instant_at(tl[n - 1], q) == c0);
    assert(g.entries.past.len() == 0);
    assert(chrono(g.entries)[0] == g.entries.current);
    assert(c0 < g.entries.current.instant);
    let k = position(after[j].entries);
    assert(instant_at(before[j], k) == c0);
    if j == n {
        assert(instant_at(g, k) == c0);
        assert(k == 0);
    }
    if j < n - 1 {
        assert(before[j] == tl[j]);
        assert(instant_at(tl[j], k) < instant_at(tl[n - 1], q));
    }
    assert(j == n - 1);
    assert(before[n - 1] == tl[n - 1]);
    if k < q {
        assert(instant_at(tl[n - 1], k) < instant_at(tl[n - 1], q));
    } else if k > q {
        assert(instant_at(tl[n - 1], q) < instant_at(tl[n - 1], k));
    }
    lemma_entries_ext(after[j].entries, tl[n - 1].entries);
    assert(passed_through(before[n], after[n], frame_id, false));
    lemma_entries_ext(after[n].entries, g.entries);
    assert forall|h: int| 0 <= h < n - 1 implies #[trigger] after[h] == tl[h] by {
        assert(after[h] == before[h]);
    }
}

/// The children of frame `id`'s current pipeline.
pub open spec fn live_children(frames: Map<u64, Frame>, pipelines: Map<u64, Pipeline>, id: FrameId) -> Seq<FrameId> {
    pipelines[frames[id.spec_key()].pipeline().spec_key()].children@
}

/// The frames that `FrameTreeIterator` returns: those in the map of frames
/// whose current pipeline is in the map of pipelines.
pub open spec fn active_present(frames: Map<u64, Frame>, pipelines: Map<u64, Pipeline>) -> spec_fn(FrameId) -> bool {
    |id: FrameId| is_live(frames, pipelines, id)
}

/// The children `FrameTreeIterator` descends to: those of the current pipeline.
pub open spec fn active_kids(frames: Map<u64, Frame>, pipelines: Map<u64, Pipeline>) -> spec_fn(FrameId) -> Seq<FrameId> {
    |id: FrameId| live_children(frames, pipelines, id)
}

/// The frames that `FullFrameTreeIterator` returns: those in the map of frames.
pub open spec fn full_present(frames: Map<u64, Frame>) -> spec_fn(FrameId) -> bool {
    |id: FrameId| frames.contains_key(id.spec_key())
}

/// The children `FullFrameTreeIterator` descends to: those of every
/// pipeline of the frame's session history.
pub open spec fn full_kids(frames: Map<u64, Frame>, pipelines: Map<u64, Pipeline>) -> spec_fn(FrameId) -> Seq<FrameId> {
    |id: FrameId| all_children(frames[id.spec_key()], pipelines)
}

/// The frames that `n` calls of a frame-tree iterator return from stack
/// `s`, when each call returns the last frame of the stack for which
/// `present` holds and replaces it, and what lies above it, with its
/// `kids`; the run stops at the first call that finds none. For
/// `FrameTreeIterator`, `present` is `is_live` and `kids` is
/// `live_children`; for `FullFrameTreeIterator`, `present` is being in
/// the map of frames and `kids` is `all_children`: this is what each
/// `next` states of one call.
pub open spec fn tree_run(
    present: spec_fn(FrameId) -> bool,
    kids: spec_fn(FrameId) -> Seq<FrameId>,
    s: Seq<FrameId>,
    n: nat,
) -> Seq<FrameId>
    decreases n,
{
    let k = last_index_where(s, s.len() as int, present);
    if n == 0 || k < 0 {
        Seq::empty()
    } else {
        seq![s[k]] + tree_run(present, kids, s.take(k) + kids(s[k]), (n - 1) as nat)
    }
}

/// The frames of the tree below frame `id`, in depth-first preorder,
/// visiting the children (`kids`) of each frame from the last to the
/// first, down to `depth` levels: a frame for which `present` fails is
/// left out with all below it.
pub open spec fn tree_preorder(
    present: spec_fn(FrameId) -> bool,
    kids: spec_fn(FrameId) -> Seq<FrameId>,
    id: FrameId,
    depth: nat,
) -> Seq<FrameId>
    decreases depth, 0nat,
{
    if depth == 0 || !present(id) {
        Seq::empty()
    } else {
        seq![id] + tree_preorder_stack(present, kids, kids(id), (depth - 1) as nat)
    }
}

/// The depth-first preorders of the frames of stack `s`, from its top
/// (last) frame down.
pub open spec fn tree_preorder_stack(
    present: spec_fn(FrameId) -> bool,
    kids: spec_fn(FrameId) -> Seq<FrameId>,
    s: Seq<FrameId>,
    depth: nat,
) -> Seq<FrameId>
    decreases depth, s.len(),
{
    if s.len() == 0 {
        Seq::empty()
    } else {
        tree_preorder(present, kids, s.last(), depth) + tree_preorder_stack(present, kids, s.drop_last(), depth)
    }
}

/// Whether the trees below the frames of `s` have no present frame deeper
/// than `depth` levels (so they are finite and have no cycle).
pub open spec fn tree_within_depth(
    present: spec_fn(FrameId) -> bool,
    kids: spec_fn(FrameId) -> Seq<FrameId>,
    s: Seq<FrameId>,
    depth: nat,
) -> bool
    decreases depth, s.len(),
{
    if s.len() == 0 {
        true
    } else {
        &&& (present(s.last()) ==> depth > 0 && tree_within_depth(present, kids, kids(s.last()), (depth - 1) as nat))
        &&& tree_within_depth(present, kids, s.drop_last(), depth)
    }
}

/// The preorders of a stack made of two parts: the upper part's first.
proof fn lemma_preorder_stack_concat(
    present: spec_fn(FrameId) -> bool,
    kids: spec_fn(FrameId) -> Seq<FrameId>,
    a: Seq<FrameId>,
    b: Seq<FrameId>,
    depth: nat,
)
    ensures
        tree_preorder_stack(present, kids, a + b, depth) == tree_preorder_stack(present, kids, b, depth)
            + tree_preorder_stack(present, kids, a, depth),
        tree_within_depth(present, kids, a + b, depth) == (tree_within_depth(present, kids, a, depth)
            && tree_within_depth(present, kids, b, depth)),
    decreases b.len(),
{
    if b.len() == 0 {
        assert(a + b =~= a);
    } else {
        assert((a + b).drop_last() =~= a + b.drop_last());
        assert((a + b).last() == b.last());
        lemma_preorder_stack_concat(present, kids, a, b.drop_last(), depth);
    }
}

/// Within the depth bound, more depth does not change the preorders.
proof fn lemma_preorder_stack_deeper(
    present: spec_fn(FrameId) -> bool,
    kids: spec_fn(FrameId) -> Seq<FrameId>,
    s: Seq<FrameId>,
    depth: nat,
    more: nat,
)
    requires
        tree_within_depth(present, kids, s, depth),
        depth <= more,
    ensures
        tree_preorder_stack(present, kids, s, more) == tree_preorder_stack(present, kids, s, depth),
        tree_within_depth(present, kids, s, more),
    decreases depth, s.len(),
{
    if s.len() > 0 {
        let x = s.last();
        if present(x) {
            lemma_preorder_stack_deeper(present, kids, kids(x), (depth - 1) as nat, (more - 1) as nat);
            assert(tree_preorder(present, kids, x, more) == seq![x] + tree_preorder_stack(present, kids, kids(x), (more - 1) as nat));
            assert(tree_preorder(present, kids, x, depth) == seq![x] + tree_preorder_stack(present, kids, kids(x), (depth - 1) as nat));
        } else {
            assert(tree_preorder(present, kids, x, more) == Seq::<FrameId>::empty());
            assert(tree_preorder(present, kids, x, depth) == Seq::<FrameId>::empty());
        }
        lemma_preorder_stack_deeper(present, kids, s.drop_last(), depth, more);
    }
}

/// The last index of a stack whose top frame fails `present` is that of
/// the stack below it.
proof fn lemma_last_index_below(s: Seq<FrameId>, m: int, present: spec_fn(FrameId) -> bool)
    requires
        0 <= m < s.len(),
    ensures
        last_index_where(s, m, present) == last_index_where(s.drop_last(), m, present),
    decreases m,
{
    if m > 0 {
        assert(s[m - 1] == s.drop_last()[m - 1]);
        lemma_last_index_below(s, m - 1, present);
    }
}

/// `last_index_where` is -1 or an index below `n` where `present` holds.
proof fn lemma_last_index_where_bounds(s: Seq<FrameId>, n: int, present: spec_fn(FrameId) -> bool)
    requires
        0 <= n <= s.len(),
    ensures
        -1 <= last_index_where(s, n, present) < n,
        last_index_where(s, n, present) >= 0 ==> present(s[last_index_where(s, n, present)]),
    decreases n,
{
    if n > 0 && !present(s[n - 1]) {
        lemma_last_index_where_bounds(s, n - 1, present);
    }
}

/// Dropping a top frame that fails `present` does not change a run.
proof fn lemma_tree_run_skip(
    present: spec_fn(FrameId) -> bool,
    kids: spec_fn(FrameId) -> Seq<FrameId>,
    s: Seq<FrameId>,
    n: nat,
)
    requires
        s.len() > 0,
        !present(s.last()),
    ensures
        tree_run(present, kids, s, n) == tree_run(present, kids, s.drop_last(), n),
{
    let t = s.drop_last();
    lemma_last_index_below(s, s.len() - 1, present);
    let k = last_index_where(s, s.len() as int, present);
    assert(k == last_index_where(t, t.len() as int, present));
    if n > 0 && k >= 0 {
        lemma_last_index_where_bounds(t, t.len() as int, present);
        assert(s[k] == t[k]);
        assert(s.take(k) =~= t.take(k));
    }
}

/// Run to its end, a frame-tree iterator returns the frames of the trees
/// below its stack in depth-first preorder, the top frame's tree first,
/// the children of each frame from the last to the first, leaving out
/// every frame for which `present` fails with the frames below it.
pub proof fn lemma_tree_run_is_preorder(
    present: spec_fn(FrameId) -> bool,
    kids: spec_fn(FrameId) -> Seq<FrameId>,
    s: Seq<FrameId>,
    depth: nat,
    n: nat,
)
    requires
        tree_within_depth(present, kids, s, depth),
        n > tree_preorder_stack(present, kids, s, depth).len(),
    ensures
        tree_run(present, kids, s, n) == tree_preorder_stack(present, kids, s, depth),
    decreases tree_preorder_stack(present, kids, s, depth).len(), s.len(),
{
    if s.len() == 0 {
        assert(last_index_where(s, 0, present) == -1);
        assert(tree_run(present, kids, s, n) == Seq::<FrameId>::empty());
    } else {
        let x = s.last();
        let t = s.drop_last();
        if !present(x) {
            lemma_tree_run_skip(present, kids, s, n);
            assert(tree_preorder(present, kids, x, depth) == Seq::<FrameId>::empty());
            assert(tree_preorder_stack(present, kids, s, depth) =~= tree_preorder_stack(present, kids, t, depth));
            lemma_tree_run_is_preorder(present, kids, t, depth, n);
        } else {
            let ch = kids(x);
            assert(last_index_where(s, s.len() as int, present) == s.len() - 1);
            assert(s.take(s.len() - 1) =~= t);
            lemma_preorder_stack_deeper(present, kids, ch, (depth - 1) as nat, depth);
            lemma_preorder_stack_concat(present, kids, t, ch, depth);
            assert(tree_preorder(present, kids, x, depth) == seq![x] + tree_preorder_stack(present, kids, ch, (depth - 1) as nat));
            assert(tree_preorder_stack(present, kids, s, depth) =~= seq![x] + tree_preorder_stack(present, kids, t + ch, depth));
            lemma_tree_run_is_preorder(present, kids, t + ch, depth, (n - 1) as nat);
            assert(tree_run(present, kids, s, n) == seq![x] + tree_run(present, kids, t + ch, (n - 1) as nat));
        }
    }
}

/// A frame is in the preorders of a stack exactly when it is in the
/// preorder of one of the stack's frames.
proof fn lemma_preorder_stack_contains(
    present: spec_fn(FrameId) -> bool,
    kids: spec_fn(FrameId) -> Seq<FrameId>,
    s: Seq<FrameId>,
    depth: nat,
    y: FrameId,
)
    ensures
        tree_preorder_stack(present, kids, s, depth).contains(y) == (exists|i: int|
            0 <= i < s.len() && #[trigger] tree_preorder(present, kids, s[i], depth).contains(y)),
    decreases s.len(),
{
    if s.len() > 0 {
        let t = s.drop_last();
        lemma_preorder_stack_contains(present, kids, t, depth, y);
        let a = tree_preorder(present, kids, s.last(), depth);
        let b = tree_preorder_stack(present, kids, t, depth);
        assert((a + b).contains(y) == (a.contains(y) || b.contains(y))) by {
            if a.contains(y) {
                let i = choose|i: int| 0 <= i < a.len() && a[i] == y;
                assert((a + b)[i] == y);
            }
            if b.contains(y) {
                let i = choose|i: int| 0 <= i < b.len() && b[i] == y;
                assert((a + b)[a.len() + i] == y);
            }
            if (a + b).contains(y) {
                let i = choose|i: int| 0 <= i < (a + b).len() && (a + b)[i] == y;
                if i < a.len() {
                    assert(a[i] == y);
                } else {
                    assert(b[i - a.len()] == y);
                }
            }
        }
        if exists|i: int| 0 <= i < s.len() && #[trigger] tree_preorder(present, kids, s[i], depth).contains(y) {
            let i = choose|i: int| 0 <= i < s.len() && #[trigger] tree_preorder(present, kids, s[i], depth).contains(y);
            if i < s.len() - 1 {
                assert(t[i] == s[i]);
            }
        }
        if b.contains(y) {
            let i = choose|i: int| 0 <= i < t.len() && #[trigger] tree_preorder(present, kids, t[i], depth).contains(y);
            assert(s[i] == t[i]);
        }
    }
}

/// Where every frame present in the first tree is present in the second,
/// with every child of the first among its children of the second, every
/// frame of the first tree's preorders is in the second's.
proof fn lemma_preorder_included(
    present1: spec_fn(FrameId) -> bool,
    kids1: spec_fn(FrameId) -> Seq<FrameId>,
    present2: spec_fn(FrameId) -> bool,
    kids2: spec_fn(FrameId) -> Seq<FrameId>,
    s1: Seq<FrameId>,
    s2: Seq<FrameId>,
    depth: nat,
)
    requires
        forall|x: FrameId| #[trigger] present1(x) ==> present2(x),
        forall|x: FrameId, i: int| present1(x) && 0 <= i < kids1(x).len() ==> kids2(x).contains(#[trigger] kids1(x)[i]),
        forall|i: int| 0 <= i < s1.len() ==> s2.contains(#[trigger] s1[i]),
    ensures
        forall|y: FrameId|
            #[trigger] tree_preorder_stack(present1, kids1, s1, depth).contains(y) ==> tree_preorder_stack(
                present2,
                kids2,
                s2,
                depth,
            ).contains(y),
    decreases depth,
{
    assert forall|y: FrameId| #[trigger] tree_preorder_stack(present1, kids1, s1, depth).contains(y) implies tree_preorder_stack(
        present2,
        kids2,
        s2,
        depth,
    ).contains(y) by {
        lemma_preorder_stack_contains(present1, kids1, s1, depth, y);
        lemma_preorder_stack_contains(present2, kids2, s2, depth, y);
        let i = choose|i: int| 0 <= i < s1.len() && #[trigger] tree_preorder(present1, kids1, s1[i], depth).contains(y);
        let x = s1[i];
        let j = choose|j: int| 0 <= j < s2.len() && s2[j] == x;
        let a = tree_preorder(present1, kids1, x, depth);
        let rest1 = tree_preorder_stack(present1, kids1, kids1(x), (depth - 1) as nat);
        let rest2 = tree_preorder_stack(present2, kids2, kids2(x), (depth - 1) as nat);
        assert(depth > 0 && present1(x));
        assert(a == seq![x] + rest1);
        let b = tree_preorder(present2, kids2, x, depth);
        assert(b == seq![x] + rest2);
        let m = choose|m: int| 0 <= m < a.len() && a[m] == y;
        if m == 0 {
            assert(b[0] == y);
        } else {
            assert forall|q: int| 0 <= q < kids1(x).len() implies kids2(x).contains(#[trigger] kids1(x)[q]) by {}
            lemma_preorder_included(present1, kids1, present2, kids2, kids1(x), kids2(x), (depth - 1) as nat);
            assert(rest1[m - 1] == y);
            assert(rest1.contains(y));
            assert(rest2.contains(y));
            let r = choose|r: int| 0 <= r < rest2.len() && rest2[r] == y;
            assert(b[r + 1] == y);
        }
        assert(b.contains(y));
        assert(tree_preorder(present2, kids2, s2[j], depth).contains(y));
    }
}

/// Every frame that `FrameTreeIterator` returns, run to its end from a
/// stack, is also returned by `FullFrameTreeIterator` run to its end from
/// the same stack over the same maps (which may return more: frames
/// reachable only through pipelines of past or future entries, and frames
/// whose current pipeline is closed), where both trees are finite.
pub proof fn lemma_active_frames_in_full_run(
    frames: Map<u64, Frame>,
    pipelines: Map<u64, Pipeline>,
    s: Seq<FrameId>,
    depth: nat,
    n1: nat,
    n2: nat,
)
    requires
        tree_within_depth(active_present(frames, pipelines), active_kids(frames, pipelines), s, depth),
        tree_within_depth(full_present(frames), full_kids(frames, pipelines), s, depth),
        n1 > tree_preorder_stack(active_present(frames, pipelines), active_kids(frames, pipelines), s, depth).len(),
        n2 > tree_preorder_stack(full_present(frames), full_kids(frames, pipelines), s, depth).len(),
    ensures
        forall|y: FrameId|
            #[trigger] tree_run(active_present(frames, pipelines), active_kids(frames, pipelines), s, n1).contains(y)
                ==> tree_run(full_present(frames), full_kids(frames, pipelines), s, n2).contains(y),
{
    let p1 = active_present(frames, pipelines);
    let k1 = active_kids(frames, pipelines);
    let p2 = full_present(frames);
    let k2 = full_kids(frames, pipelines);
    lemma_tree_run_is_preorder(p1, k1, s, depth, n1);
    lemma_tree_run_is_preorder(p2, k2, s, depth, n2);
    assert forall|x: FrameId, i: int| p1(x) && 0 <= i < k1(x).len() implies k2(x).contains(#[trigger] k1(x)[i]) by {
        let frame = frames[x.spec_key()];
        let head = (frame.past_groups() + frame.future_groups()).map_values(
            |g: FrameStateGroup| children_of(pipelines, g@.pipeline_id),
        ).flatten();
        assert(children_of(pipelines, Some(frame.pipeline())) == k1(x));
        assert(k2(x) == head + k1(x));
        assert(k2(x)[head.len() + i] == k1(x)[i]);
    }
    assert forall|i: int| 0 <= i < s.len() implies s.contains(#[trigger] s[i]) by {}
    lemma_preorder_included(p1, k1, p2, k2, s, s, depth);
}

/// A load keeps every group up to the current one as it was (the old
/// current group, with its pipeline, becomes the latest past group), puts
/// the new group right after it, and keeps the groups after it, whatever
/// the future holds.
pub proof fn lemma_loaded_shape(tl: Seq<GroupView>, i: int, g: GroupView)
    requires
        0 <= i < tl.len(),
    ensures
        loaded(tl, i, g).len() == tl.len() + 1,
        forall|j: int| 0 <= j <= i ==> #[trigger] loaded(tl, i, g)[j] == tl[j],
        loaded(tl, i, g)[i + 1] == g,
        forall|j: int| i < j < tl.len() ==> loaded(tl, i, g)[j + 1] == #[trigger] tl[j],
{
}

/// An element of a flattened sequence is an element of one of its parts.
proof fn lemma_flatten_contains(m: Seq<Seq<FrameId>>, x: FrameId)
    ensures
        m.flatten().contains(x) <==> exists|i: int, j: int|
            0 <= i < m.len() && 0 <= j < m[i].len() && #[trigger] m[i][j] == x,
    decreases m.len(),
{
    if m.len() > 0 {
        let a = m.first();
        let rest = m.drop_first();
        lemma_flatten_contains(rest, x);
        let f = a + rest.flatten();
        assert(m.flatten() == f);
        if f.contains(x) {
            let k = choose|k: int| 0 <= k < f.len() && f[k] == x;
            if k < a.len() {
                assert(m[0][k] == x);
            } else {
                assert(rest.flatten()[k - a.len()] == x);
                assert(rest.flatten().contains(x));
                let (i, j) = choose|i: int, j: int| 0 <= i < rest.len() && 0 <= j < rest[i].len() && #[trigger] rest[i][j] == x;
                assert(m[i + 1][j] == x);
            }
        }
        if exists|i: int, j: int| 0 <= i < m.len() && 0 <= j < m[i].len() && #[trigger] m[i][j] == x {
            let (i, j) = choose|i: int, j: int| 0 <= i < m.len() && 0 <= j < m[i].len() && #[trigger] m[i][j] == x;
            if i == 0 {
                assert(f[j] == x);
            } else {
                assert(rest[i - 1][j] == x);
                let k = choose|k: int| 0 <= k < rest.flatten().len() && rest.flatten()[k] == x;
                assert(f[a.len() + k] == x);
            }
        }
    }
}

/// `FullFrameTreeIterator` descends from a frame to the children of every
/// pipeline of its session history that is open: a frame is among them
/// exactly when it is a child of the pipeline of a past group, of a future
/// group, or of the current pipeline; the children of the current pipeline
/// come last. A closed pipeline, or a group whose pipeline was discarded,
/// gives none.
pub proof fn lemma_all_children_members(frame: Frame, pipelines: Map<u64, Pipeline>, c: FrameId)
    ensures
        all_children(frame, pipelines).contains(c) <==> (exists|i: int|
            0 <= i < frame.past_groups().len() && #[trigger] children_of(
                pipelines,
                frame.past_groups()[i]@.pipeline_id,
            ).contains(c)) || (exists|i: int|
            0 <= i < frame.future_groups().len() && #[trigger] children_of(
                pipelines,
                frame.future_groups()[i]@.pipeline_id,
            ).contains(c)) || children_of(pipelines, Some(frame.pipeline())).contains(c),
        ({
            let all = all_children(frame, pipelines);
            let cur = children_of(pipelines, Some(frame.pipeline()));
            all.subrange(all.len() - cur.len(), all.len() as int) == cur
        }),
        forall|p: PipelineId|
            pipelines.contains_key(p.spec_key()) ==> #[trigger] children_of(pipelines, Some(p))
                == pipelines[p.spec_key()].children@,
        forall|p: PipelineId|
            !pipelines.contains_key(p.spec_key()) ==> #[trigger] children_of(pipelines, Some(p)).len() == 0,
        children_of(pipelines, None).len() == 0,
{
    let f = |g: FrameStateGroup| children_of(pipelines, g@.pipeline_id);
    let gs = frame.past_groups() + frame.future_groups();
    let m = gs.map_values(f);
    let head = m.flatten();
    let cur = children_of(pipelines, Some(frame.pipeline()));
    let all = head + cur;
    assert(all_children(frame, pipelines) == all);
    assert(all.subrange(all.len() - cur.len(), all.len() as int) =~= cur);
    lemma_flatten_contains(m, c);
    assert(all.contains(c) <==> (head.contains(c) || cur.contains(c))) by {
        if all.contains(c) {
            let k = choose|k: int| 0 <= k < all.len() && all[k] == c;
            if k < head.len() {
                assert(head[k] == c);
            } else {
                assert(cur[k - head.len()] == c);
            }
        }
        if head.contains(c) {
            let k = choose|k: int| 0 <= k < head.len() && head[k] == c;
            assert(all[k] == c);
        }
        if cur.contains(c) {
            let k = choose|k: int| 0 <= k < cur.len() && cur[k] == c;
            assert(all[head.len() + k] == c);
        }
    }
    let np = frame.past_groups().len();
    if head.contains(c) {
        let (i, j) = choose|i: int, j: int| 0 <= i < m.len() && 0 <= j < m[i].len() && #[trigger] m[i][j] == c;
        if i < np {
            assert(m[i] == children_of(pipelines, frame.past_groups()[i]@.pipeline_id));
            assert(children_of(pipelines, frame.past_groups()[i]@.pipeline_id).contains(c));
        } else {
            assert(m[i] == children_of(pipelines, frame.future_groups()[i - np]@.pipeline_id));
            assert(children_of(pipelines, frame.future_groups()[i - np]@.pipeline_id).contains(c));
        }
    }
    if exists|i: int|
        0 <= i < frame.past_groups().len() && #[trigger] children_of(pipelines, frame.past_groups()[i]@.pipeline_id).contains(c) {
        let i = choose|i: int|
            0 <= i < frame.past_groups().len() && #[trigger] children_of(pipelines, frame.past_groups()[i]@.pipeline_id).contains(c);
        let j = choose|j: int| 0 <= j < m[i].len() && m[i][j] == c;
        assert(m[i][j] == c);
    }
    if exists|i: int|
        0 <= i < frame.future_groups().len() && #[trigger] children_of(pipelines, frame.future_groups()[i]@.pipeline_id).contains(c) {
        let i = choose|i: int|
            0 <= i < frame.future_groups().len() && #[trigger] children_of(pipelines, frame.future_groups()[i]@.pipeline_id).contains(c);
        let ki = np + i;
        assert(m[ki] == children_of(pipelines, frame.future_groups()[i]@.pipeline_id));
        let j = choose|j: int| 0 <= j < m[ki].len() && m[ki][j] == c;
        assert(m[ki][j] == c);
    }
}

/// The full frame tree descends through every entry of a frame's session
/// history, past or future: each child of the pipeline of a past group, of
/// a future group, or of the current pipeline, where that pipeline is
/// open, is among the children pushed for the frame.
pub proof fn lemma_full_kids_include_history(
    frames: Map<u64, Frame>,
    pipelines: Map<u64, Pipeline>,
    id: FrameId,
    p: PipelineId,
    c: FrameId,
)
    requires
        frames.contains_key(id.spec_key()),
        pipelines.contains_key(p.spec_key()),
        pipelines[p.spec_key()].children@.contains(c),
    ensures
        (exists|i: int|
            0 <= i < frames[id.spec_key()].future_groups().len()
                && #[trigger] frames[id.spec_key()].future_groups()[i]@.pipeline_id == Some(p))
            ==> full_kids(frames, pipelines)(id).contains(c),
        (exists|i: int|
            0 <= i < frames[id.spec_key()].past_groups().len()
                && #[trigger] frames[id.spec_key()].past_groups()[i]@.pipeline_id == Some(p))
            ==> full_kids(frames, pipelines)(id).contains(c),
        frames[id.spec_key()].pipeline() == p ==> full_kids(frames, pipelines)(id).contains(c),
{
    let frame = frames[id.spec_key()];
    lemma_all_children_members(frame, pipelines, c);
    assert(full_kids(frames, pipelines)(id) == all_children(frame, pipelines));
    if exists|i: int| 0 <= i < frame.future_groups().len() && #[trigger] frame.future_groups()[i]@.pipeline_id == Some(p) {
        let i = choose|i: int| 0 <= i < frame.future_groups().len() && #[trigger] frame.future_groups()[i]@.pipeline_id == Some(p);
        assert(children_of(pipelines, frame.future_groups()[i]@.pipeline_id).contains(c));
    }
    if exists|i: int| 0 <= i < frame.past_groups().len() && #[trigger] frame.past_groups()[i]@.pipeline_id == Some(p) {
        let i = choose|i: int| 0 <= i < frame.past_groups().len() && #[trigger] frame.past_groups()[i]@.pipeline_id == Some(p);
        assert(children_of(pipelines, frame.past_groups()[i]@.pipeline_id).contains(c));
    }
}

} // verus!
