//! The recordings index: the groups of the last read, a filter over them,
//! and the selection of recordings.

use vstd::prelude::*;

use crate::grouping::{
    add_to_group, group_entries, grouping, grouping_inv, lemma_grouping_inv, map_groups, new_groups,
    Key,
};
use crate::recordings::{
    group_view, groups_view, recording_view, GroupView, MapRecordings, Recording, RecordingView,
};
use crate::text::{chars_of, str_eq};

verus! {

/// `needle` occurs in `hay`.
pub open spec fn contains_seq(hay: Seq<char>, needle: Seq<char>) -> bool {
    exists|i: int| 0 <= i && i + needle.len() <= hay.len() && #[trigger] hay.subrange(i, i + needle.len()) == needle
}

/// `s` in lower case, as `str::to_lowercase` gives it.
pub uninterp spec fn lower_of(s: Seq<char>) -> Seq<char>;

/// Relies on `str::to_lowercase`: the result depends on the characters
/// alone, and an empty string stays empty.
#[verifier::external_body]
fn lowercase(s: &str) -> (r: String)
    ensures
        r@ == lower_of(s@),
        s@.len() == 0 ==> r@.len() == 0,
{
    s.to_lowercase()
}

/// Whether `needle` occurs in `hay`.
pub fn contains_chars(hay: &Vec<char>, needle: &Vec<char>) -> (r: bool)
    ensures
        r == contains_seq(hay@, needle@),
{
    let n = needle.len();
    if n > hay.len() {
        return false;
    }
    let mut i: usize = 0;
    while i <= hay.len() - n
        invariant
            n == needle@.len(),
            n <= hay.len(),
            i <= hay.len() - n + 1,
            forall|k: int| 0 <= k < i ==> #[trigger] hay@.subrange(k, k + n) != needle@,
        decreases hay.len() - n + 1 - i,
    {
        let mut j: usize = 0;
        let mut same = true;
        while j < n && same
            invariant
                n == needle@.len(),
                i + n <= hay.len(),
                j <= n,
                same ==> forall|m: int| 0 <= m < j ==> hay@[i + m] == needle@[m],
                !same ==> j < n && hay@[i + j] != needle@[j as int],
            decreases n - j + (if same { 1int } else { 0int }),
        {
            if hay[i + j] != needle[j] {
                same = false;
            } else {
                j = j + 1;
            }
        }
        if same {
            proof {
                assert(hay@.subrange(i as int, i + n) =~= needle@);
            }
            return true;
        }
        proof {
            assert(hay@.subrange(i as int, i + n)[j as int] != needle@[j as int]);
        }
        i = i + 1;
    }
    proof {
        assert forall|k: int| 0 <= k && k + n <= hay@.len() implies #[trigger] hay@.subrange(k, k + n) != needle@ by {
            assert(k < i);
        }
    }
    false
}

/// A group passes a filter that is already in lower case where its chapter
/// name or its map identifier, in lower case, contains the filter.
pub open spec fn passes(g: GroupView, filter: Seq<char>) -> bool {
    contains_seq(lower_of(g.1), filter) || contains_seq(lower_of(g.0), filter)
}

/// Whether a chapter name and a map identifier, both already in lower case,
/// pass a filter that is in lower case.
pub fn matches_folded(chapter_name: &str, map_bin: &str, filter: &str) -> (r: bool)
    ensures
        r == (contains_seq(chapter_name@, filter@) || contains_seq(map_bin@, filter@)),
{
    let c = chars_of(chapter_name);
    let m = chars_of(map_bin);
    let f = chars_of(filter);
    contains_chars(&c, &f) || contains_chars(&m, &f)
}

/// Whether a group passes the filter `filter`, which is in lower case.
pub fn filter_function(rec: &MapRecordings, filter: &str) -> (r: bool)
    ensures
        r == passes(group_view(*rec), filter@),
{
    let c = lowercase(rec.chapter_name.as_str());
    let m = lowercase(rec.map_bin.as_str());
    matches_folded(c.as_str(), m.as_str(), filter)
}

/// Positions, ascending, of the first `k` groups that pass `filter`.
pub open spec fn passing(gs: Seq<GroupView>, filter: Seq<char>, k: int) -> Seq<int>
    decreases k,
{
    if k <= 0 {
        Seq::empty()
    } else {
        passing(gs, filter, k - 1) + if passes(gs[k - 1], filter) {
            seq![k - 1]
        } else {
            Seq::empty()
        }
    }
}

/// The groups of the last read and the filter, in lower case, over them.
pub struct RecordingsIndex {
    pub groups: Vec<MapRecordings>,
    pub filter: String,
}

impl RecordingsIndex {
    pub open spec fn view_groups(&self) -> Seq<GroupView> {
        groups_view(self.groups@)
    }

    /// An index over `groups` with an empty filter.
    pub fn new(groups: Vec<MapRecordings>) -> (r: RecordingsIndex)
        ensures
            r.groups@ == groups@,
            r.filter@.len() == 0,
    {
        RecordingsIndex { groups, filter: String::new() }
    }

    /// Puts the groups of a new read in place of the old ones.
    pub fn replace_all(&mut self, groups: Vec<MapRecordings>)
        ensures
            final(self).groups@ == groups@,
            final(self).filter == old(self).filter,
    {
        self.groups = groups;
    }

    /// Sets the filter, in lower case.
    pub fn set_filter(&mut self, filter: &str)
        ensures
            final(self).filter@ == lower_of(filter@),
            filter@.len() == 0 ==> final(self).filter@.len() == 0,
            final(self).groups@ == old(self).groups@,
    {
        self.filter = lowercase(filter);
    }

    /// Positions of the groups that pass the filter, ascending.
    pub fn iter_filtered(&self) -> (r: Vec<usize>)
        ensures
            r@.map_values(|i: usize| i as int) == passing(
                self.view_groups(),
                self.filter@,
                self.groups@.len() as int,
            ),
    {
        let mut r: Vec<usize> = Vec::new();
        for i in 0..self.groups.len()
            invariant
                r@.map_values(|i: usize| i as int) == passing(
                    self.view_groups(),
                    self.filter@,
                    i as int,
                ),
        {
            let ok = filter_function(&self.groups[i], self.filter.as_str());
            let ghost before = r@;
            if ok {
                r.push(i);
            }
            proof {
                assert(self.view_groups()[i as int] == group_view(self.groups@[i as int]));
                assert(r@.map_values(|i: usize| i as int) =~= passing(
                    self.view_groups(),
                    self.filter@,
                    i + 1,
                ));
            }
        }
        r
    }
}

proof fn lemma_passing_members(gs: Seq<GroupView>, filter: Seq<char>, k: int)
    requires
        0 <= k <= gs.len(),
    ensures
        forall|i: int| passing(gs, filter, k).contains(i) <==> (0 <= i < k && passes(gs[i], filter)),
        forall|a: int, b: int|
            0 <= a < b < passing(gs, filter, k).len() ==> #[trigger] passing(gs, filter, k)[a]
                < #[trigger] passing(gs, filter, k)[b],
    decreases k,
{
    if k > 0 {
        lemma_passing_members(gs, filter, k - 1);
        let prev = passing(gs, filter, k - 1);
        let cur = passing(gs, filter, k);
        assert forall|i: int| cur.contains(i) <==> (0 <= i < k && passes(gs[i], filter)) by {
            if cur.contains(i) {
                let m = choose|m: int| 0 <= m < cur.len() && cur[m] == i;
                if m < prev.len() {
                    assert(prev[m] == i);
                    assert(prev.contains(i));
                }
            }
            if 0 <= i < k && passes(gs[i], filter) {
                if i < k - 1 {
                    assert(prev.contains(i));
                    let m = choose|m: int| 0 <= m < prev.len() && prev[m] == i;
                    assert(cur[m] == i);
                } else {
                    assert(cur[prev.len() as int] == i);
                }
            }
        }
        assert forall|a: int, b: int| 0 <= a < b < cur.len() implies #[trigger] cur[a] < #[trigger] cur[b] by {
            if b == prev.len() {
                assert(prev.contains(prev[a]));
            }
        }
    }
}

/// After a filter is set, the groups listed are exactly those whose chapter
/// name or map identifier contains the filter regardless of case (both in
/// lower case), in their order; an empty filter lists every group.
pub proof fn lemma_filter_selects_matching(gs: Seq<GroupView>, filter: Seq<char>)
    ensures
        forall|i: int|
            passing(gs, lower_of(filter), gs.len() as int).contains(i) <==> (0 <= i < gs.len() && (
            contains_seq(lower_of(gs[i].1), lower_of(filter)) || contains_seq(
                lower_of(gs[i].0),
                lower_of(filter),
            ))),
        forall|a: int, b: int|
            0 <= a < b < passing(gs, lower_of(filter), gs.len() as int).len() ==> #[trigger] passing(
                gs,
                lower_of(filter),
                gs.len() as int,
            )[a] < #[trigger] passing(gs, lower_of(filter), gs.len() as int)[b],
        lower_of(filter).len() == 0 ==> passing(gs, lower_of(filter), gs.len() as int) == Seq::new(
            gs.len(),
            |i: int| i,
        ),
{
    lemma_passing_members(gs, lower_of(filter), gs.len() as int);
    if lower_of(filter).len() == 0 {
        lemma_empty_filter_passes_all(gs, lower_of(filter), gs.len() as int);
    }
}

proof fn lemma_empty_filter_passes_all(gs: Seq<GroupView>, filter: Seq<char>, k: int)
    requires
        filter.len() == 0,
        0 <= k <= gs.len(),
    ensures
        passing(gs, filter, k) == Seq::new(k as nat, |i: int| i),
    decreases k,
{
    if k > 0 {
        lemma_empty_filter_passes_all(gs, filter, k - 1);
        assert(lower_of(gs[k - 1].1).subrange(0, 0 + filter.len() as int) =~= filter);
        assert(passes(gs[k - 1], filter));
        assert(passing(gs, filter, k) == passing(gs, filter, k - 1) + seq![k - 1]);
        assert(passing(gs, filter, k) =~= Seq::new(k as nat, |i: int| i));
    }
}


pub open spec fn checked_as(r: RecordingView, c: bool) -> RecordingView {
    (c, r.1, r.2, r.3, r.4)
}

/// `g` with the group and each of its recordings selected or not as `c` says.
pub open spec fn group_checked_as(g: GroupView, c: bool) -> GroupView {
    (g.0, g.1, c, g.3.map_values(|r: RecordingView| checked_as(r, c)))
}

/// Every group with a map identifier is selected.
pub open spec fn all_selected(gs: Seq<GroupView>) -> bool {
    forall|i: int| 0 <= i < gs.len() ==> (#[trigger] gs[i]).2 || gs[i].0.len() == 0
}

/// What "select all" makes of the groups: all deselected where all were
/// selected, else every group with a map identifier and its recordings
/// selected; a group without a map identifier is never selected.
pub open spec fn select_all_view(gs: Seq<GroupView>) -> Seq<GroupView> {
    gs.map_values(|g: GroupView| group_checked_as(g, !all_selected(gs) && g.0.len() > 0))
}

/// Index of the first group at or after `k` with map identifier `m`, or the
/// number of groups where there is none.
pub open spec fn first_map_from(gs: Seq<GroupView>, m: Seq<char>, k: int) -> int
    decreases gs.len() - k,
{
    if k < 0 || k >= gs.len() {
        gs.len() as int
    } else if gs[k].0 == m {
        k
    } else {
        first_map_from(gs, m, k + 1)
    }
}

pub open spec fn any_checked(rs: Seq<RecordingView>) -> bool {
    exists|k: int| 0 <= k < rs.len() && (#[trigger] rs[k]).0
}

/// `g` with recording `pos` selected or not as `c` says, and the group
/// selected where any of its recordings is.
pub open spec fn recording_checked_as(g: GroupView, pos: int, c: bool) -> GroupView {
    let rs = g.3.update(pos, checked_as(g.3[pos], c));
    (g.0, g.1, any_checked(rs), rs)
}

/// Number of selected recordings.
pub open spec fn checked_count(rs: Seq<RecordingView>) -> nat
    decreases rs.len(),
{
    if rs.len() == 0 {
        0
    } else {
        checked_count(rs.drop_last()) + if rs.last().0 {
            1nat
        } else {
            0nat
        }
    }
}

/// Comparing takes some group with exactly two recordings selected, and no
/// group with another nonzero number of them.
pub open spec fn can_compare(gs: Seq<GroupView>) -> bool {
    (exists|i: int| 0 <= i < gs.len() && checked_count((#[trigger] gs[i]).3) == 2) && (forall|i: int|
        0 <= i < gs.len() ==> checked_count((#[trigger] gs[i]).3) == 0 || checked_count(gs[i].3)
            == 2)
}

fn placeholder_recording() -> Recording {
    Recording {
        checked: false,
        i: 0,
        start_time: String::new(),
        start_room: String::new(),
        frame_count: 0,
    }
}

fn placeholder_group() -> MapRecordings {
    MapRecordings {
        map_bin: String::new(),
        chapter_name: String::new(),
        checked: false,
        recordings: Vec::new(),
    }
}

fn set_recording_checked_at(rs: &mut Vec<Recording>, k: usize, c: bool)
    requires
        k < old(rs)@.len(),
    ensures
        final(rs)@.len() == old(rs)@.len(),
        forall|m: int|
            0 <= m < old(rs)@.len() && m != k ==> #[trigger] final(rs)@[m] == old(rs)@[m],
        recording_view(final(rs)@[k as int]) == checked_as(recording_view(old(rs)@[k as int]), c),
{
    let mut tmp = placeholder_recording();
    rs.set_and_swap(k, &mut tmp);
    tmp.checked = c;
    rs.set_and_swap(k, &mut tmp);
}

fn set_group_checked(g: &mut MapRecordings, c: bool)
    ensures
        group_view(*final(g)) == group_checked_as(group_view(*old(g)), c),
{
    let ghost start = g.recordings@;
    let n = g.recordings.len();
    for k in 0..n
        invariant
            n == start.len(),
            g.recordings@.len() == n,
            g.map_bin == old(g).map_bin,
            g.chapter_name == old(g).chapter_name,
            start == old(g).recordings@,
            forall|m: int|
                0 <= m < k ==> recording_view(#[trigger] g.recordings@[m]) == checked_as(
                    recording_view(start[m]),
                    c,
                ),
            forall|m: int| k <= m < n ==> #[trigger] g.recordings@[m] == start[m],
    {
        set_recording_checked_at(&mut g.recordings, k, c);
    }
    g.checked = c;
    proof {
        assert(group_view(*g).3 =~= group_checked_as(group_view(*old(g)), c).3);
    }
}

fn checked_count_of(rs: &Vec<Recording>) -> (r: usize)
    ensures
        r as nat == checked_count(rs@.map_values(|x: Recording| recording_view(x))),
{
    let ghost v = rs@.map_values(|x: Recording| recording_view(x));
    let mut r: usize = 0;
    for k in 0..rs.len()
        invariant
            v == rs@.map_values(|x: Recording| recording_view(x)),
            r as nat == checked_count(v.take(k as int)),
            r <= k,
    {
        proof {
            assert(v.take(k + 1).drop_last() =~= v.take(k as int));
            assert(v.take(k + 1).last() == recording_view(rs@[k as int]));
        }
        if rs[k].checked {
            r = r + 1;
        }
    }
    proof {
        assert(v.take(rs@.len() as int) =~= v);
    }
    r
}

impl RecordingsIndex {
    /// Selects every group with a map identifier and all its recordings, or,
    /// where all of them are selected already, deselects everything.
    pub fn select_all(&mut self)
        ensures
            final(self).view_groups() == select_all_view(old(self).view_groups()),
            final(self).filter == old(self).filter,
    {
        let ghost gs = self.view_groups();
        let n = self.groups.len();
        let mut all = true;
        for i in 0..n
            invariant
                n == self.groups@.len(),
                gs == self.view_groups(),
                all == forall|m: int| 0 <= m < i ==> (#[trigger] gs[m]).2 || gs[m].0.len() == 0,
        {
            proof {
                assert(gs[i as int] == group_view(self.groups@[i as int]));
            }
            all = all && (self.groups[i].checked || self.groups[i].map_bin.as_str().is_empty());
        }
        let select = !all;
        assert(select == !all_selected(gs));
        let ghost start = self.groups@;
        for i in 0..n
            invariant
                n == self.groups@.len(),
                n == gs.len(),
                gs == groups_view(start),
                select == !all_selected(gs),
                self.filter == old(self).filter,
                forall|m: int|
                    0 <= m < i ==> group_view(#[trigger] self.groups@[m]) == select_all_view(gs)[m],
                forall|m: int| i <= m < n ==> #[trigger] self.groups@[m] == start[m],
        {
            let mut tmp = placeholder_group();
            self.groups.set_and_swap(i, &mut tmp);
            let has_map = !tmp.map_bin.as_str().is_empty();
            set_group_checked(&mut tmp, select && has_map);
            self.groups.set_and_swap(i, &mut tmp);
            proof {
                assert(gs[i as int] == group_view(start[i as int]));
            }
        }
        proof {
            assert(self.view_groups() =~= select_all_view(gs));
        }
    }

    fn find_map(&self, map_bin: &str) -> (r: usize)
        ensures
            r as int == first_map_from(self.view_groups(), map_bin@, 0),
    {
        let ghost gs = self.view_groups();
        let mut i: usize = 0;
        while i < self.groups.len()
            invariant
                gs == self.view_groups(),
                i <= self.groups@.len(),
                first_map_from(gs, map_bin@, 0) == first_map_from(gs, map_bin@, i as int),
            decreases self.groups@.len() - i,
        {
            proof {
                assert(gs[i as int] == group_view(self.groups@[i as int]));
            }
            if str_eq(self.groups[i].map_bin.as_str(), map_bin) {
                return i;
            }
            i = i + 1;
        }
        i
    }

    /// Selects or deselects the first group with map identifier `map_bin`,
    /// and all its recordings with it.
    pub fn set_map_checked(&mut self, map_bin: &str, checked: bool)
        ensures
            final(self).filter == old(self).filter,
            ({
                let gs = old(self).view_groups();
                let j = first_map_from(gs, map_bin@, 0);
                final(self).view_groups() == if j < gs.len() {
                    gs.update(j, group_checked_as(gs[j], checked))
                } else {
                    gs
                }
            }),
    {
        let ghost gs = self.view_groups();
        let j = self.find_map(map_bin);
        if j < self.groups.len() {
            let mut tmp = placeholder_group();
            self.groups.set_and_swap(j, &mut tmp);
            set_group_checked(&mut tmp, checked);
            self.groups.set_and_swap(j, &mut tmp);
            proof {
                assert(self.view_groups() =~= gs.update(j as int, group_checked_as(gs[j as int], checked)));
            }
        }
    }

    /// Selects or deselects recording `pos` of the first group with map
    /// identifier `map_bin`; the group is then selected where any of its
    /// recordings is.
    pub fn set_recording_checked(&mut self, map_bin: &str, pos: usize, checked: bool)
        ensures
            final(self).filter == old(self).filter,
            ({
                let gs = old(self).view_groups();
                let j = first_map_from(gs, map_bin@, 0);
                final(self).view_groups() == if j < gs.len() && pos < gs[j].3.len() {
                    gs.update(j, recording_checked_as(gs[j], pos as int, checked))
                } else {
                    gs
                }
            }),
    {
        let ghost gs = self.view_groups();
        let j = self.find_map(map_bin);
        if j < self.groups.len() && pos < self.groups[j].recordings.len() {
            let mut tmp = placeholder_group();
            self.groups.set_and_swap(j, &mut tmp);
            let ghost g0 = tmp;
            set_recording_checked_at(&mut tmp.recordings, pos, checked);
            let ghost rs = tmp.recordings@.map_values(|x: Recording| recording_view(x));
            proof {
                assert(gs[j as int] == group_view(g0));
                assert(rs =~= group_view(g0).3.update(
                    pos as int,
                    checked_as(group_view(g0).3[pos as int], checked),
                ));
            }
            let mut any = false;
            for k in 0..tmp.recordings.len()
                invariant
                    rs == tmp.recordings@.map_values(|x: Recording| recording_view(x)),
                    any == exists|m: int| 0 <= m < k && (#[trigger] rs[m]).0,
            {
                proof {
                    assert(rs[k as int] == recording_view(tmp.recordings@[k as int]));
                }
                if tmp.recordings[k].checked {
                    any = true;
                }
            }
            tmp.checked = any;
            self.groups.set_and_swap(j, &mut tmp);
            proof {
                assert(group_view(self.groups@[j as int]) == recording_checked_as(
                    gs[j as int],
                    pos as int,
                    checked,
                ));
                assert(self.view_groups() =~= gs.update(
                    j as int,
                    recording_checked_as(gs[j as int], pos as int, checked),
                ));
            }
        }
    }

    /// Whether the selection can be compared.
    pub fn compare_enabled(&self) -> (r: bool)
        ensures
            r == can_compare(self.view_groups()),
    {
        let ghost gs = self.view_groups();
        let mut any_two = false;
        let mut all_two = true;
        for i in 0..self.groups.len()
            invariant
                gs == self.view_groups(),
                any_two == exists|m: int| 0 <= m < i && checked_count((#[trigger] gs[m]).3) == 2,
                all_two == forall|m: int|
                    0 <= m < i ==> checked_count((#[trigger] gs[m]).3) == 0 || checked_count(
                        gs[m].3,
                    ) == 2,
        {
            let n = checked_count_of(&self.groups[i].recordings);
            proof {
                assert(gs[i as int] == group_view(self.groups@[i as int]));
            }
            if n == 2 {
                any_two = true;
            } else if n != 0 {
                all_two = false;
            }
        }
        any_two && all_two
    }
}


/// Store indices of the selected recordings, in order.
pub open spec fn checked_ids(rs: Seq<RecordingView>) -> Seq<u32>
    decreases rs.len(),
{
    if rs.len() == 0 {
        Seq::empty()
    } else {
        checked_ids(rs.drop_last()) + if rs.last().0 {
            seq![rs.last().1]
        } else {
            Seq::empty()
        }
    }
}

pub open spec fn tagged(m: Seq<char>, ids: Seq<u32>) -> Seq<(Seq<char>, u32)> {
    ids.map_values(|i: u32| (m, i))
}

/// Each selected recording as (map identifier, store index), group by
/// group, leaving out groups without a chapter name.
pub open spec fn selected_items(gs: Seq<GroupView>) -> Seq<(Seq<char>, u32)>
    decreases gs.len(),
{
    if gs.len() == 0 {
        Seq::empty()
    } else {
        selected_items(gs.drop_last()) + if gs.last().1.len() > 0 {
            tagged(gs.last().0, checked_ids(gs.last().3))
        } else {
            Seq::empty()
        }
    }
}

pub open spec fn item_keys(items: Seq<(Seq<char>, u32)>) -> Seq<Key> {
    items.map_values(|x: (Seq<char>, u32)| (x.0, Seq::<char>::empty()))
}

/// The selected recordings by map identifier: maps in order of their first
/// selected recording, store indices in order within each.
pub open spec fn compare_lists(gs: Seq<GroupView>) -> Seq<(Seq<char>, Seq<u32>)> {
    let items = selected_items(gs);
    grouping(item_keys(items)).map_values(
        |e: (Key, Seq<int>)| (e.0.0, e.1.map_values(|p: int| items[p].1)),
    )
}

pub open spec fn list_view(v: Seq<(String, Vec<u32>)>) -> Seq<(Seq<char>, Seq<u32>)> {
    v.map_values(|x: (String, Vec<u32>)| (x.0@, x.1@))
}

impl RecordingsIndex {
    /// The selected recordings to compare, by map identifier (the map alone,
    /// whatever the chapter), leaving out groups without a chapter name.
    pub fn compare_selection(&self) -> (r: Vec<(String, Vec<u32>)>)
        ensures
            list_view(r@) == compare_lists(self.view_groups()),
    {
        let ghost gs = self.view_groups();
        let mut m = new_groups();
        let mut ids: Vec<u32> = Vec::new();
        let ghost mut items: Seq<(Seq<char>, u32)> = Seq::empty();
        for j in 0..self.groups.len()
            invariant
                gs == self.view_groups(),
                items == selected_items(gs.take(j as int)),
                ids@ == items.map_values(|x: (Seq<char>, u32)| x.1),
                map_groups(m) == grouping(item_keys(items)),
        {
            let g = &self.groups[j];
            let ghost gv = gs[j as int];
            let ghost start = items;
            proof {
                assert(gv == group_view(*g));
                assert(gs.take(j + 1).drop_last() =~= gs.take(j as int));
                assert(gs.take(j + 1).last() == gv);
            }
            if !g.chapter_name.as_str().is_empty() {
                let ghost rs = gv.3;
                for k in 0..g.recordings.len()
                    invariant
                        gv == group_view(*g),
                        rs == gv.3,
                        items == start + tagged(gv.0, checked_ids(rs.take(k as int))),
                        ids@ == items.map_values(|x: (Seq<char>, u32)| x.1),
                        map_groups(m) == grouping(item_keys(items)),
                {
                    let rec = &g.recordings[k];
                    proof {
                        assert(rs[k as int] == recording_view(*rec));
                        assert(rs.take(k + 1).drop_last() =~= rs.take(k as int));
                        assert(rs.take(k + 1).last() == rs[k as int]);
                    }
                    if rec.checked {
                        let ghost before = items;
                        add_to_group(&mut m, (g.map_bin.clone(), String::new()), ids.len());
                        ids.push(rec.i);
                        proof {
                            items = items.push((gv.0, rec.i));
                            assert(item_keys(items).drop_last() =~= item_keys(before));
                            assert(items =~= start + tagged(gv.0, checked_ids(rs.take(k + 1))));
                            assert(ids@ =~= items.map_values(|x: (Seq<char>, u32)| x.1));
                        }
                    } else {
                        proof {
                            assert(items =~= start + tagged(gv.0, checked_ids(rs.take(k + 1))));
                        }
                    }
                }
                proof {
                    assert(rs.take(rs.len() as int) =~= rs);
                }
            } else {
                proof {
                    assert(items =~= selected_items(gs.take(j + 1)));
                }
            }
        }
        proof {
            assert(gs.take(gs.len() as int) =~= gs);
            lemma_grouping_inv(item_keys(items));
        }
        let entries = group_entries(m);
        let ghost g = grouping(item_keys(items));
        let ghost target = compare_lists(gs);
        let mut out: Vec<(String, Vec<u32>)> = Vec::new();
        for e in 0..entries.len()
            invariant
                items == selected_items(gs),
                ids@ == items.map_values(|x: (Seq<char>, u32)| x.1),
                g == grouping(item_keys(items)),
                grouping_inv(item_keys(items), g),
                target == compare_lists(gs),
                entries@.len() == g.len(),
                forall|i: int|
                    0 <= i < entries@.len() ==> (#[trigger] entries@[i]).0.0@ == g[i].0.0
                        && entries@[i].1@.map_values(|p: usize| p as int) == g[i].1,
                list_view(out@) == target.take(e as int),
        {
            let members = &entries[e].1;
            let ghost gm = g[e as int].1;
            let mut list: Vec<u32> = Vec::new();
            for k in 0..members.len()
                invariant
                    ids@ == items.map_values(|x: (Seq<char>, u32)| x.1),
                    g == grouping(item_keys(items)),
                    grouping_inv(item_keys(items), g),
                    0 <= e < g.len(),
                    gm == g[e as int].1,
                    members@.map_values(|p: usize| p as int) == gm,
                    list@ == gm.take(k as int).map_values(|p: int| items[p].1),
            {
                let p = members[k];
                assert(gm[k as int] == p as int);
                assert(0 <= g[e as int].1[k as int] < item_keys(items).len());
                list.push(ids[p]);
                proof {
                    assert(gm.take(k + 1) =~= gm.take(k as int).push(gm[k as int]));
                    assert(list@ =~= gm.take(k + 1).map_values(|p: int| items[p].1));
                }
            }
            proof {
                assert(gm.take(members@.len() as int) =~= gm);
            }
            let ghost before = out@;
            out.push((entries[e].0.0.clone(), list));
            proof {
                assert(list_view(out@) =~= list_view(before).push(target[e as int]));
                assert(target.take(e + 1) =~= target.take(e as int).push(target[e as int]));
            }
        }
        proof {
            assert(target.take(entries@.len() as int) =~= target);
        }
        out
    }
}

} // verus!
