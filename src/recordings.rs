//! Physics recordings, grouped by the map and chapter they were made on.

use chrono::{Datelike, Timelike};
use vstd::prelude::*;

use crate::grouping::{
    add_to_group, group_entries, grouping, grouping_inv, lemma_grouping_inv,
    map_groups, new_groups,
};
use crate::text::{chars_of, digit_char, has_prefix_at, is_prefix, str_eq, string_of};

verus! {

/// A date on the calendar.
#[derive(Clone, Copy, Debug, PartialEq, Eq, Structural)]
pub struct CalendarDate {
    pub year: i32,
    pub month: u32,
    pub day: u32,
}

/// The local date and time, to the minute, that a recording started.
#[derive(Clone, Copy, Debug, PartialEq, Eq, Structural)]
pub struct Timestamp {
    pub year: i32,
    pub month: u32,
    pub day: u32,
    pub hour: u32,
    pub minute: u32,
}

/// One record of the recordings store, as it was read.
pub struct RawRecording {
    /// The store's ordinal for the recording.
    pub index: u32,
    /// Identifier of the map binary; older records have none.
    pub map_bin: Option<String>,
    /// Symbolic id of the map.
    pub sid: Option<String>,
    pub chapter_name: String,
    pub side_name: String,
    /// When recording started, in RFC 3339.
    pub recording_started: String,
    pub frame_count: u32,
    /// Debug names of the rooms the recording went through, in order.
    pub rooms: Vec<String>,
}

/// A recording as the index shows it.
pub struct Recording {
    pub checked: bool,
    pub i: u32,
    pub start_time: String,
    pub start_room: String,
    pub frame_count: u32,
}

/// The recordings made on one map and chapter, in ascending index order.
pub struct MapRecordings {
    pub map_bin: String,
    pub chapter_name: String,
    pub checked: bool,
    pub recordings: Vec<Recording>,
}

pub type RecordingView = (bool, u32, Seq<char>, Seq<char>, u32);

pub type GroupView = (Seq<char>, Seq<char>, bool, Seq<RecordingView>);

pub open spec fn recording_view(r: Recording) -> RecordingView {
    (r.checked, r.i, r.start_time@, r.start_room@, r.frame_count)
}

pub open spec fn group_view(g: MapRecordings) -> GroupView {
    (g.map_bin@, g.chapter_name@, g.checked, g.recordings@.map_values(|r: Recording| recording_view(r)))
}

pub open spec fn groups_view(v: Seq<MapRecordings>) -> Seq<GroupView> {
    v.map_values(|g: MapRecordings| group_view(g))
}

/// The symbolic id names built-in content.
pub open spec fn is_vanilla(r: RawRecording) -> bool {
    r.sid matches Some(s) && is_prefix("Celeste/"@, s@)
}

/// The map identifier of a record: the stored one, with the built-in
/// namespace put in front where the symbolic id is built-in and the stored
/// identifier lacks it; empty where none is stored.
pub open spec fn map_identifier(r: RawRecording) -> Seq<char> {
    match r.map_bin {
        Some(m) => if is_vanilla(r) && !is_prefix("Celeste/"@, m@) {
            "Celeste/"@ + m@
        } else {
            m@
        },
        None => Seq::empty(),
    }
}

/// The chapter name, followed by the side unless it is the A-Side.
pub open spec fn display_chapter_name(r: RawRecording) -> Seq<char> {
    if r.side_name@ == "A-Side"@ {
        r.chapter_name@
    } else {
        r.chapter_name@ + " "@ + r.side_name@
    }
}

pub type GroupKey = (Seq<char>, Seq<char>);

pub open spec fn group_key(r: RawRecording) -> GroupKey {
    (map_identifier(r), display_chapter_name(r))
}

/// Debug name of the first room, or empty.
pub open spec fn first_room(r: RawRecording) -> Seq<char> {
    if r.rooms@.len() > 0 {
        r.rooms@[0]@
    } else {
        Seq::empty()
    }
}

fn starts_with_str(s: &str, p: &str) -> (r: bool)
    ensures
        r == is_prefix(p@, s@),
{
    let c = chars_of(s);
    proof {
        assert(c@.skip(0) =~= c@);
    }
    has_prefix_at(&c, 0, p)
}

/// The map identifier of a record.
pub fn map_identifier_of(r: &RawRecording) -> (m: String)
    ensures
        m@ == map_identifier(*r),
{
    let vanilla = match &r.sid {
        Some(s) => starts_with_str(s.as_str(), "Celeste/"),
        None => false,
    };
    match &r.map_bin {
        Some(m) => if vanilla && !starts_with_str(m.as_str(), "Celeste/") {
            let mut out = "Celeste/".to_owned();
            out.append(m.as_str());
            out
        } else {
            m.clone()
        },
        None => String::new(),
    }
}

/// The chapter name shown for a record.
pub fn display_chapter_name_of(r: &RawRecording) -> (n: String)
    ensures
        n@ == display_chapter_name(*r),
{
    if str_eq(r.side_name.as_str(), "A-Side") {
        r.chapter_name.clone()
    } else {
        let mut out = r.chapter_name.clone();
        out.append(" ");
        out.append(r.side_name.as_str());
        out
    }
}

pub open spec fn two_digits(n: int) -> Seq<char> {
    seq![digit_char(n / 10), digit_char(n % 10)]
}

pub open spec fn four_digits(n: int) -> Seq<char> {
    seq![digit_char(n / 1000), digit_char((n / 100) % 10), digit_char((n / 10) % 10), digit_char(n % 10)]
}

/// `HH:MM`.
pub open spec fn clock_text(t: Timestamp) -> Seq<char> {
    two_digits(t.hour as int) + ":"@ + two_digits(t.minute as int)
}

/// `DD.MM.YYYY HH:MM`.
pub open spec fn date_clock_text(t: Timestamp) -> Seq<char> {
    two_digits(t.day as int) + "."@ + two_digits(t.month as int) + "."@ + four_digits(t.year as int)
        + " "@ + clock_text(t)
}

pub open spec fn timestamp_in_range(t: Timestamp) -> bool {
    0 <= t.year <= 9999 && 1 <= t.month <= 12 && 1 <= t.day <= 31 && t.hour <= 23 && t.minute <= 59
}

pub open spec fn same_day(t: Timestamp, d: CalendarDate) -> bool {
    t.year == d.year && t.month == d.month && t.day == d.day
}

/// The start time shown: the time alone for a recording made `today`, the
/// date and the time otherwise, nothing where the time is unknown.
pub open spec fn start_time_view(t: Option<Timestamp>, today: CalendarDate) -> Seq<char> {
    match t {
        Some(t) => if same_day(t, today) {
            clock_text(t)
        } else {
            date_clock_text(t)
        },
        None => Seq::empty(),
    }
}

fn push_digit(out: &mut Vec<char>, d: u32)
    requires
        d < 10,
    ensures
        final(out)@ == old(out)@.push(digit_char(d as int)),
{
    let c = match d {
        0 => '0',
        1 => '1',
        2 => '2',
        3 => '3',
        4 => '4',
        5 => '5',
        6 => '6',
        7 => '7',
        8 => '8',
        _ => '9',
    };
    out.push(c);
}

fn push_two(out: &mut Vec<char>, n: u32)
    requires
        n < 100,
    ensures
        final(out)@ == old(out)@ + two_digits(n as int),
{
    push_digit(out, n / 10);
    push_digit(out, n % 10);
    assert(final(out)@ =~= old(out)@ + two_digits(n as int));
}

fn push_clock(out: &mut Vec<char>, t: &Timestamp)
    requires
        timestamp_in_range(*t),
    ensures
        final(out)@ == old(out)@ + clock_text(*t),
{
    push_two(out, t.hour);
    out.push(':');
    push_two(out, t.minute);
    proof {
        reveal_strlit(":");
    }
    assert(final(out)@ =~= old(out)@ + clock_text(*t));
}

/// The start time shown for a recording that started at `t`.
pub fn start_time_text(t: Option<Timestamp>, today: CalendarDate) -> (r: String)
    requires
        t matches Some(t) ==> timestamp_in_range(t),
    ensures
        r@ == start_time_view(t, today),
{
    match t {
        Some(t) => {
            let mut out: Vec<char> = Vec::new();
            if t.year == today.year && t.month == today.month && t.day == today.day {
                push_clock(&mut out, &t);
                assert(out@ =~= clock_text(t));
            } else {
                push_two(&mut out, t.day);
                out.push('.');
                push_two(&mut out, t.month);
                out.push('.');
                let y = t.year as u32;
                push_digit(&mut out, y / 1000);
                push_digit(&mut out, (y / 100) % 10);
                push_digit(&mut out, (y / 10) % 10);
                push_digit(&mut out, y % 10);
                out.push(' ');
                push_clock(&mut out, &t);
                proof {
                    reveal_strlit(".");
                    reveal_strlit(" ");
                }
                assert(out@ =~= date_clock_text(t));
            }
            string_of(&out)
        },
        None => String::new(),
    }
}


/// Local date and time of an RFC 3339 text, as (year, month, day, hour,
/// minute) in the offset it was written with; `None` where it does not parse.
pub uninterp spec fn rfc3339_local(s: Seq<char>) -> Option<(int, int, int, int, int)>;

/// Relies on `chrono::DateTime::parse_from_rfc3339` and the date and time
/// getters of the value it returns. Its parser reads a four-digit year and
/// checks month, day, hour and minute through `NaiveDate::from_ymd_opt` and
/// `NaiveTime::from_hms_nano_opt`, so the fields are in range.
#[verifier::external_body]
fn parse_timestamp(s: &str) -> (r: Option<Timestamp>)
    ensures
        r is None <==> rfc3339_local(s@) is None,
        r matches Some(t) ==> timestamp_in_range(t) && rfc3339_local(s@) == Some(
            (t.year as int, t.month as int, t.day as int, t.hour as int, t.minute as int),
        ),
{
    match chrono::DateTime::parse_from_rfc3339(s) {
        Ok(d) => Some(
            Timestamp {
                year: d.year(),
                month: d.month(),
                day: d.day(),
                hour: d.hour(),
                minute: d.minute(),
            },
        ),
        Err(_) => None,
    }
}

pub open spec fn as_timestamp(t: (int, int, int, int, int)) -> Timestamp {
    Timestamp {
        year: t.0 as i32,
        month: t.1 as u32,
        day: t.2 as u32,
        hour: t.3 as u32,
        minute: t.4 as u32,
    }
}

/// The start time shown for an RFC 3339 text.
pub open spec fn start_time_of(s: Seq<char>, today: CalendarDate) -> Seq<char> {
    match rfc3339_local(s) {
        Some(t) => start_time_view(Some(as_timestamp(t)), today),
        None => Seq::empty(),
    }
}

/// The recording that the index shows for a record.
pub open spec fn recording_of(r: RawRecording, today: CalendarDate) -> RecordingView {
    (false, r.index, start_time_of(r.recording_started@, today), first_room(r), r.frame_count)
}

/// The groups built from records scanned in the order given: one per key
/// (map identifier, chapter name) in order of first appearance, none
/// selected, each with its recordings in scan order, none selected.
pub open spec fn groups_of(scan: Seq<RawRecording>, today: CalendarDate) -> Seq<GroupView> {
    grouping(scan.map_values(|r: RawRecording| group_key(r))).map_values(
        |e: (GroupKey, Seq<int>)|
            (
                e.0.0,
                e.0.1,
                false,
                e.1.map_values(|p: int| recording_of(scan[p], today)),
            ),
    )
}

/// The recording shown for a record.
pub fn recording_from(r: &RawRecording, today: CalendarDate) -> (out: Recording)
    ensures
        recording_view(out) == recording_of(*r, today),
{
    let t = parse_timestamp(r.recording_started.as_str());
    let start_time = start_time_text(t, today);
    let start_room = if r.rooms.len() > 0 {
        r.rooms[0].clone()
    } else {
        String::new()
    };
    Recording { checked: false, i: r.index, start_time, start_room, frame_count: r.frame_count }
}

pub open spec fn scan_of(records: Seq<RawRecording>, order: Seq<usize>) -> Seq<RawRecording> {
    order.map_values(|i: usize| records[i as int])
}

/// Groups `records` taken in the order that `order` gives by position.
pub fn group_recordings(records: &Vec<RawRecording>, order: &Vec<usize>, today: CalendarDate) -> (r:
    Vec<MapRecordings>)
    requires
        forall|i: int| 0 <= i < order@.len() ==> #[trigger] order@[i] < records@.len(),
    ensures
        groups_view(r@) == groups_of(scan_of(records@, order@), today),
{
    let ghost scan = scan_of(records@, order@);
    let ghost keys = scan.map_values(|r: RawRecording| group_key(r));
    let mut m = new_groups();
    for p in 0..order.len()
        invariant
            scan == scan_of(records@, order@),
            keys == scan.map_values(|r: RawRecording| group_key(r)),
            forall|i: int| 0 <= i < order@.len() ==> #[trigger] order@[i] < records@.len(),
            map_groups(m) == grouping(keys.take(p as int)),
    {
        let rec = &records[order[p]];
        let key = (map_identifier_of(rec), display_chapter_name_of(rec));
        add_to_group(&mut m, key, p);
        proof {
            assert(keys.take(p + 1).drop_last() =~= keys.take(p as int));
            assert(keys.take(p + 1).last() == group_key(*rec));
        }
    }
    proof {
        assert(keys.take(order@.len() as int) =~= keys);
        lemma_grouping_inv(keys);
    }
    let ghost g = grouping(keys);
    let entries = group_entries(m);
    let ghost target = groups_of(scan, today);
    let mut out: Vec<MapRecordings> = Vec::new();
    for j in 0..entries.len()
        invariant
            scan == scan_of(records@, order@),
            keys == scan.map_values(|r: RawRecording| group_key(r)),
            g == grouping(keys),
            grouping_inv(keys, g),
            target == groups_of(scan, today),
            entries@.len() == g.len(),
            forall|i: int| 0 <= i < order@.len() ==> #[trigger] order@[i] < records@.len(),
            forall|i: int|
                0 <= i < entries@.len() ==> (#[trigger] entries@[i]).0.0@ == g[i].0.0
                    && entries@[i].0.1@ == g[i].0.1 && entries@[i].1@.map_values(
                    |p: usize| p as int,
                ) == g[i].1,
            groups_view(out@) == target.take(j as int),
    {
        let members = &entries[j].1;
        let ghost gm = g[j as int].1;
        assert(members@.map_values(|p: usize| p as int) == gm);
        let mut recs: Vec<Recording> = Vec::new();
        for k in 0..members.len()
            invariant
                scan == scan_of(records@, order@),
                g == grouping(keys),
                grouping_inv(keys, g),
                0 <= j < g.len(),
                gm == g[j as int].1,
                members@.map_values(|p: usize| p as int) == gm,
                keys.len() == order@.len(),
                forall|i: int| 0 <= i < order@.len() ==> #[trigger] order@[i] < records@.len(),
                recs@.map_values(|r: Recording| recording_view(r)) == gm.take(k as int).map_values(
                    |p: int| recording_of(scan[p], today),
                ),
        {
            let p = members[k];
            assert(gm[k as int] == p as int);
            assert(0 <= g[j as int].1[k as int] < keys.len());
            let rec = recording_from(&records[order[p]], today);
            let ghost before = recs@;
            recs.push(rec);
            proof {
                assert(scan[p as int] == records@[order@[p as int] as int]);
                assert(recording_view(rec) == recording_of(scan[gm[k as int]], today));
                assert(recs@.map_values(|r: Recording| recording_view(r)) =~= before.map_values(
                    |r: Recording| recording_view(r),
                ).push(recording_view(rec)));
                assert(gm.take(k + 1) =~= gm.take(k as int).push(gm[k as int]));
                assert(recs@.map_values(|r: Recording| recording_view(r)) =~= gm.take(
                    k + 1,
                ).map_values(|p: int| recording_of(scan[p], today)));
            }
        }
        proof {
            assert(gm.take(members@.len() as int) =~= gm);
        }
        let group = MapRecordings {
            map_bin: entries[j].0.0.clone(),
            chapter_name: entries[j].0.1.clone(),
            checked: false,
            recordings: recs,
        };
        let ghost before = out@;
        out.push(group);
        proof {
            assert(groups_view(out@) =~= groups_view(before).push(group_view(group)));
            assert(target.take(j + 1) =~= target.take(j as int).push(target[j as int]));
            assert(group_view(group) =~= target[j as int]);
        }
    }
    proof {
        assert(target.take(entries@.len() as int) =~= target);
    }
    out
}


pub open spec fn pair_lt(a: (u32, usize), b: (u32, usize)) -> bool {
    a.0 < b.0 || (a.0 == b.0 && a.1 < b.1)
}

pub open spec fn pair_le(a: (u32, usize), b: (u32, usize)) -> bool {
    a.0 < b.0 || (a.0 == b.0 && a.1 <= b.1)
}

/// Relies on `slice::sort`: the same items, in ascending order, tuples
/// ordered field by field.
#[verifier::external_body]
fn sort_pairs(v: &mut Vec<(u32, usize)>)
    ensures
        final(v)@.to_multiset() == old(v)@.to_multiset(),
        forall|i: int, j: int|
            0 <= i < j < final(v)@.len() ==> pair_le(#[trigger] final(v)@[i], #[trigger] final(v)@[j]),
{
    v.sort();
}

/// `order` lists every position of `records` once, ascending by the
/// records' store index, positions breaking ties.
pub open spec fn index_order(records: Seq<RawRecording>, order: Seq<usize>) -> bool {
    &&& order.len() == records.len()
    &&& forall|i: int| 0 <= i < order.len() ==> #[trigger] order[i] < records.len()
    &&& forall|p: usize| p < records.len() ==> #[trigger] order.contains(p)
    &&& forall|i: int, j: int|
        0 <= i < j < order.len() ==> pair_lt(
            (records[order[i] as int].index, order[i]),
            (records[order[j] as int].index, order[j]),
        )
}

pub open spec fn positions_of(s: Seq<(u32, usize)>) -> Seq<usize> {
    s.map_values(|x: (u32, usize)| x.1)
}

/// Positions of `records`, ascending by store index.
pub fn index_order_of(records: &Vec<RawRecording>) -> (order: Vec<usize>)
    ensures
        index_order(records@, order@),
{
    let n = records.len();
    let mut pairs: Vec<(u32, usize)> = Vec::new();
    for p in 0..n
        invariant
            n == records@.len(),
            pairs@ == Seq::new(p as nat, |q: int| (records@[q].index, q as usize)),
    {
        pairs.push((records[p].index, p));
        proof {
            assert(pairs@ =~= Seq::new((p + 1) as nat, |q: int| (records@[q].index, q as usize)));
        }
    }
    let ghost before = pairs@;
    proof {
        assert(before.no_duplicates()) by {
            assert forall|i: int, j: int| 0 <= i < before.len() && 0 <= j < before.len() && i != j implies before[i] != before[j] by {
                assert(before[i].1 == i as usize);
                assert(before[j].1 == j as usize);
            }
        }
        before.lemma_multiset_has_no_duplicates();
    }
    sort_pairs(&mut pairs);
    let ghost after = pairs@;
    proof {
        broadcast use vstd::seq_lib::to_multiset_len, vstd::seq_lib::to_multiset_contains;

        vstd::seq_lib::to_multiset_len(after);
        vstd::seq_lib::to_multiset_len(before);
        assert(after.len() == before.len());
        assert forall|x: (u32, usize)| after.to_multiset().contains(x) implies after.to_multiset().count(x) == 1 by {
            assert(before.to_multiset().contains(x));
        }
        after.lemma_multiset_has_no_duplicates_conv();
        assert forall|i: int| 0 <= i < after.len() implies (#[trigger] after[i]).1 < n && after[i].0 == records@[after[i].1 as int].index by {
            assert(after.contains(after[i]));
            assert(after.to_multiset().count(after[i]) > 0);
            assert(before.to_multiset().count(after[i]) > 0);
            assert(before.contains(after[i]));
            let q = choose|q: int| 0 <= q < before.len() && before[q] == after[i];
            assert(before[q] == (records@[q].index, q as usize));
        }
        assert forall|p: usize| p < n implies #[trigger] positions_of(after).contains(p) by {
            let b = before[p as int];
            assert(b == (records@[p as int].index, p));
            assert(before.contains(b));
            assert(before.to_multiset().count(b) > 0);
            assert(after.to_multiset().count(b) > 0);
            assert(after.contains(b));
            let a = choose|a: int| 0 <= a < after.len() && after[a] == b;
            assert(positions_of(after)[a] == p);
        }
    }
    let mut order: Vec<usize> = Vec::new();
    for i in 0..n
        invariant
            n == records@.len(),
            after.len() == n,
            pairs@ == after,
            order@ == after.take(i as int).map_values(|x: (u32, usize)| x.1),
            forall|p: usize| p < n ==> #[trigger] positions_of(after).contains(p),
    {
        order.push(pairs[i].1);
        proof {
            assert(after.take(i + 1) =~= after.take(i as int).push(after[i as int]));
            assert(order@ =~= after.take(i + 1).map_values(|x: (u32, usize)| x.1));
        }
    }
    proof {
        assert(after.take(n as int) =~= after);
        assert(order@ =~= positions_of(after));
        assert forall|i: int| 0 <= i < order@.len() implies #[trigger] order@[i] < records@.len() by {
            assert(order@[i] == after[i].1);
        }
        assert forall|i: int, j: int| 0 <= i < j < order@.len() implies pair_lt(
            (records@[order@[i] as int].index, order@[i]),
            (records@[order@[j] as int].index, order@[j]),
        ) by {
            assert(order@[i] == after[i].1);
            assert(order@[j] == after[j].1);
            assert(pair_le(after[i], after[j]));
            assert(after[i] != after[j]);
        }
    }
    order
}

/// The groups of the recordings store: records scanned ascending by store
/// index and grouped as `groups_of` says; `today` decides which start times
/// show the time alone.
pub fn read_recordings(records: &Vec<RawRecording>, today: CalendarDate) -> (r: Vec<MapRecordings>)
    ensures
        exists|order: Seq<usize>|
            index_order(records@, order) && groups_view(r@) == groups_of(
                scan_of(records@, order),
                today,
            ),
{
    let order = index_order_of(records);
    group_recordings(records, &order, today)
}


/// Some record with key `k1` comes before every record with key `k2`.
pub open spec fn appears_before(scan: Seq<RawRecording>, k1: GroupKey, k2: GroupKey) -> bool {
    exists|a: int|
        0 <= a < scan.len() && group_key(#[trigger] scan[a]) == k1 && forall|b: int|
            0 <= b < scan.len() && group_key(#[trigger] scan[b]) == k2 ==> a < b
}

/// Two records of a scan with the same map identifier and chapter name land
/// in the one group of that key; and where group `i` comes before group
/// `j`, some record of group `i` comes before every record of group `j`.
pub proof fn lemma_records_grouped_by_key(scan: Seq<RawRecording>, today: CalendarDate, p: int, q: int)
    requires
        0 <= p < scan.len(),
        0 <= q < scan.len(),
        group_key(scan[p]) == group_key(scan[q]),
    ensures
        exists|j: int|
            0 <= j < groups_of(scan, today).len() && (#[trigger] groups_of(scan, today)[j]).0
                == map_identifier(scan[p]) && groups_of(scan, today)[j].1 == display_chapter_name(
                scan[p],
            ) && groups_of(scan, today)[j].3.contains(recording_of(scan[p], today))
                && groups_of(scan, today)[j].3.contains(recording_of(scan[q], today)),
        forall|i: int, j: int|
            0 <= i < j < groups_of(scan, today).len() ==> appears_before(
                scan,
                ((#[trigger] groups_of(scan, today)[i]).0, groups_of(scan, today)[i].1),
                ((#[trigger] groups_of(scan, today)[j]).0, groups_of(scan, today)[j].1),
            ),
{
    let keys = scan.map_values(|r: RawRecording| group_key(r));
    let g = grouping(keys);
    let out = groups_of(scan, today);
    lemma_grouping_inv(keys);
    assert(keys[p] == group_key(scan[p]));
    assert(keys[q] == group_key(scan[q]));
    let j = crate::grouping::key_slot(g, keys[p]);
    let mp = choose|m: int| 0 <= m < g[j].1.len() && g[j].1[m] == p;
    let mq = choose|m: int| 0 <= m < g[j].1.len() && g[j].1[m] == q;
    assert(out[j].3[mp] == recording_of(scan[p], today));
    assert(out[j].3[mq] == recording_of(scan[q], today));
    assert(out[j].3.contains(recording_of(scan[p], today)));
    assert(out[j].3.contains(recording_of(scan[q], today)));
    assert forall|i: int, jj: int| 0 <= i < jj < out.len() implies appears_before(
        scan,
        ((#[trigger] out[i]).0, out[i].1),
        ((#[trigger] out[jj]).0, out[jj].1),
    ) by {
        let a = g[i].1[0];
        assert(keys[a] == g[i].0);
        assert forall|b: int| 0 <= b < scan.len() && group_key(#[trigger] scan[b]) == (out[jj].0, out[jj].1) implies a < b by {
            assert(keys[b] == group_key(scan[b]));
            let s = crate::grouping::key_slot(g, keys[b]);
            assert(g[s].0 == g[jj].0);
            assert(s == jj);
            let m = choose|m: int| 0 <= m < g[jj].1.len() && g[jj].1[m] == b;
            assert(g[i].1[0] < g[jj].1[0]);
            if m > 0 {
                assert(g[jj].1[0] < g[jj].1[m]);
            }
        }
        assert(group_key(scan[a]) == (out[i].0, out[i].1));
    }
}

/// A built-in record keeps a map identifier that already carries the
/// built-in namespace, and gets the namespace once where it lacks it.
pub proof fn lemma_vanilla_prefix_once(r: RawRecording)
    requires
        is_vanilla(r),
        r.map_bin is Some,
    ensures
        is_prefix("Celeste/"@, r.map_bin->0@) ==> map_identifier(r) == r.map_bin->0@,
        !is_prefix("Celeste/"@, r.map_bin->0@) ==> map_identifier(r) == "Celeste/"@ + r.map_bin->0@,
        is_prefix("Celeste/"@, map_identifier(r)),
{
    let m = r.map_bin->0@;
    if !is_prefix("Celeste/"@, m) {
        assert(("Celeste/"@ + m).take("Celeste/"@.len() as int) =~= "Celeste/"@);
    }
}


/// A changed file in the recordings store is a room layout, which a new
/// recording writes.
pub open spec fn is_room_layout(path: Seq<char>) -> bool {
    "_room-layout.json"@.len() <= path.len() && path.skip(path.len() - "_room-layout.json"@.len())
        == "_room-layout.json"@
}

/// Whether a changed path is a room layout of the recordings store.
pub fn is_room_layout_path(path: &str) -> (r: bool)
    ensures
        r == is_room_layout(path@),
{
    let c = chars_of(path);
    let n = "_room-layout.json".unicode_len();
    if n > c.len() {
        return false;
    }
    let r = has_prefix_at(&c, c.len() - n, "_room-layout.json");
    proof {
        let k = c@.len() - n;
        assert(c@.skip(k).take(n as int) =~= c@.skip(k));
    }
    r
}


/// What `read_recordings` makes of `records` taken in `order`.
pub open spec fn read_groups(records: Seq<RawRecording>, order: Seq<usize>, today: CalendarDate) -> Seq<GroupView> {
    groups_of(scan_of(records, order), today)
}

/// Some record with key `k1` comes before every record with key `k2` in
/// store order: by index, then by position.
pub open spec fn stored_before(records: Seq<RawRecording>, k1: GroupKey, k2: GroupKey) -> bool {
    exists|p: int|
        0 <= p < records.len() && group_key(#[trigger] records[p]) == k1 && forall|r: int|
            0 <= r < records.len() && group_key(#[trigger] records[r]) == k2 ==> pair_lt(
                (records[p].index, p as usize),
                (records[r].index, r as usize),
            )
}

/// The groups read from a store, stated over its records as they were read:
/// two records with the same map identifier and chapter name land in the
/// one group of that key; no two groups share a key; and the groups come in
/// the order in which their keys first appear ascending by store index.
pub proof fn lemma_read_groups_by_key(
    records: Seq<RawRecording>,
    order: Seq<usize>,
    today: CalendarDate,
    p: int,
    q: int,
)
    requires
        index_order(records, order),
        records.len() <= usize::MAX,
        0 <= p < records.len(),
        0 <= q < records.len(),
        group_key(records[p]) == group_key(records[q]),
    ensures
        exists|j: int|
            0 <= j < read_groups(records, order, today).len() && ((#[trigger] read_groups(
                records,
                order,
                today,
            )[j]).0, read_groups(records, order, today)[j].1) == group_key(records[p])
                && read_groups(records, order, today)[j].3.contains(recording_of(records[p], today))
                && read_groups(records, order, today)[j].3.contains(recording_of(records[q], today)),
        forall|i: int, j: int|
            0 <= i < read_groups(records, order, today).len() && 0 <= j < read_groups(
                records,
                order,
                today,
            ).len() && i != j ==> ((#[trigger] read_groups(records, order, today)[i]).0,
            read_groups(records, order, today)[i].1) != ((#[trigger] read_groups(
                records,
                order,
                today,
            )[j]).0, read_groups(records, order, today)[j].1),
        forall|i: int, j: int|
            0 <= i < j < read_groups(records, order, today).len() ==> stored_before(
                records,
                ((#[trigger] read_groups(records, order, today)[i]).0, read_groups(
                    records,
                    order,
                    today,
                )[i].1),
                ((#[trigger] read_groups(records, order, today)[j]).0, read_groups(
                    records,
                    order,
                    today,
                )[j].1),
            ),
{
    let scan = scan_of(records, order);
    let gs = read_groups(records, order, today);
    let keys = scan.map_values(|r: RawRecording| group_key(r));
    lemma_grouping_inv(keys);
    assert(order.contains(p as usize));
    assert(order.contains(q as usize));
    let a = choose|a: int| 0 <= a < order.len() && order[a] == p as usize;
    let b = choose|b: int| 0 <= b < order.len() && order[b] == q as usize;
    assert(order[a] as int == p);
    assert(order[b] as int == q);
    assert(scan[a] == records[p]);
    assert(scan[b] == records[q]);
    lemma_records_grouped_by_key(scan, today, a, b);
    assert forall|i: int, j: int|
        0 <= i < gs.len() && 0 <= j < gs.len() && i != j implies ((#[trigger] gs[i]).0, gs[i].1) != (
        (#[trigger] gs[j]).0,
        gs[j].1,
    ) by {
        assert(grouping(keys)[i].0 != grouping(keys)[j].0);
    }
    assert forall|i: int, j: int| 0 <= i < j < gs.len() implies stored_before(
        records,
        ((#[trigger] gs[i]).0, gs[i].1),
        ((#[trigger] gs[j]).0, gs[j].1),
    ) by {
        let ki = (gs[i].0, gs[i].1);
        let kj = (gs[j].0, gs[j].1);
        assert(appears_before(scan, ki, kj));
        let x = choose|x: int|
            0 <= x < scan.len() && group_key(#[trigger] scan[x]) == ki && forall|y: int|
                0 <= y < scan.len() && group_key(#[trigger] scan[y]) == kj ==> x < y;
        let px = order[x] as int;
        assert(records[px] == scan[x]);
        assert forall|r: int| 0 <= r < records.len() && group_key(#[trigger] records[r]) == kj implies pair_lt(
            (records[px].index, px as usize),
            (records[r].index, r as usize),
        ) by {
            assert(order.contains(r as usize));
            let y = choose|y: int| 0 <= y < order.len() && order[y] == r as usize;
            assert(order[y] as int == r);
            assert(scan[y] == records[r]);
            assert(x < y);
        }
    }
}

} // verus!
