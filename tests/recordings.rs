use atlas::index::{filter_function, matches_folded, RecordingsIndex};
use atlas::recordings::{
    is_room_layout_path, map_identifier_of, read_recordings, start_time_text, CalendarDate,
    MapRecordings, RawRecording, Timestamp,
};

fn raw(index: u32, map_bin: Option<&str>, sid: Option<&str>, chapter: &str, side: &str) -> RawRecording {
    RawRecording {
        index,
        map_bin: map_bin.map(|s| s.to_string()),
        sid: sid.map(|s| s.to_string()),
        chapter_name: chapter.to_string(),
        side_name: side.to_string(),
        recording_started: "2024-03-05T14:07:09+01:00".to_string(),
        frame_count: 100 + index,
        rooms: vec![format!("room{index}"), "later".to_string()],
    }
}

fn today() -> CalendarDate {
    CalendarDate { year: 2024, month: 3, day: 5 }
}

#[test]
fn records_group_by_map_and_chapter_in_index_order() {
    let records = vec![
        raw(5, Some("Maps/b"), None, "B", "A-Side"),
        raw(1, Some("Maps/a"), None, "A", "A-Side"),
        raw(3, Some("Maps/b"), None, "B", "A-Side"),
        raw(2, Some("Maps/a"), None, "A", "B-Side"),
        raw(4, Some("Maps/a"), None, "A", "A-Side"),
    ];
    let groups = read_recordings(&records, today());
    let keys: Vec<(String, String)> =
        groups.iter().map(|g| (g.map_bin.clone(), g.chapter_name.clone())).collect();
    assert_eq!(
        keys,
        vec![
            ("Maps/a".to_string(), "A".to_string()),
            ("Maps/a".to_string(), "A B-Side".to_string()),
            ("Maps/b".to_string(), "B".to_string()),
        ]
    );
    let ids: Vec<Vec<u32>> = groups.iter().map(|g| g.recordings.iter().map(|r| r.i).collect()).collect();
    assert_eq!(ids, vec![vec![1, 4], vec![2], vec![3, 5]]);
    assert!(groups.iter().all(|g| !g.checked && g.recordings.iter().all(|r| !r.checked)));
    assert_eq!(groups[0].recordings[0].start_room, "room1");
    assert_eq!(groups[0].recordings[0].frame_count, 101);
    assert_eq!(groups[0].recordings[0].start_time, "14:07");
}

#[test]
fn vanilla_identifier_gets_prefix_once() {
    let bare = raw(0, Some("0-Intro"), Some("Celeste/0-Intro"), "Prologue", "A-Side");
    assert_eq!(map_identifier_of(&bare), "Celeste/0-Intro");
    let prefixed = raw(0, Some("Celeste/0-Intro"), Some("Celeste/0-Intro"), "Prologue", "A-Side");
    assert_eq!(map_identifier_of(&prefixed), "Celeste/0-Intro");
    let modded = raw(0, Some("Maps/x"), Some("Mod/x"), "X", "A-Side");
    assert_eq!(map_identifier_of(&modded), "Maps/x");
    let old = raw(0, None, Some("Celeste/1-City"), "City", "A-Side");
    assert_eq!(map_identifier_of(&old), "");
}

#[test]
fn start_time_today_or_with_date() {
    let t = Timestamp { year: 2024, month: 3, day: 5, hour: 9, minute: 4 };
    assert_eq!(start_time_text(Some(t), today()), "09:04");
    let other = CalendarDate { year: 2024, month: 3, day: 6 };
    assert_eq!(start_time_text(Some(t), other), "05.03.2024 09:04");
    assert_eq!(start_time_text(None, today()), "");
    let mut r = raw(0, Some("m"), None, "C", "A-Side");
    r.recording_started = "not a date".to_string();
    let g = read_recordings(&vec![r], today());
    assert_eq!(g[0].recordings[0].start_time, "");
    let mut r = raw(0, Some("m"), None, "C", "A-Side");
    r.recording_started = "0987-11-02T23:59:00Z".to_string();
    let g = read_recordings(&vec![r], today());
    assert_eq!(g[0].recordings[0].start_time, "02.11.0987 23:59");
}

fn group(map_bin: &str, chapter: &str) -> MapRecordings {
    let g = read_recordings(&vec![raw(0, Some(map_bin), None, chapter, "A-Side")], today());
    g.into_iter().next().unwrap()
}

#[test]
fn filter_matches_case_insensitively() {
    let mut index = RecordingsIndex::new(vec![
        group("Maps/ABCity", "One"),
        group("Maps/x", "The abc chapter"),
        group("Maps/y", "Other"),
    ]);
    index.set_filter("aBc");
    assert_eq!(index.iter_filtered(), vec![0, 1]);
    index.set_filter("zzz");
    assert_eq!(index.iter_filtered(), Vec::<usize>::new());
    index.set_filter("");
    assert_eq!(index.iter_filtered(), vec![0, 1, 2]);
    assert!(filter_function(&index.groups[2], "oth"));
    assert!(!filter_function(&index.groups[2], "OTH"));
    assert!(matches_folded("abc", "", "bc"));
    assert!(!matches_folded("abc", "xyz", "ca"));
}

#[test]
fn select_all_and_toggles() {
    let mut index = RecordingsIndex::new(vec![group("Maps/a", "A"), group("", "Empty")]);
    index.select_all();
    assert!(index.groups[0].checked && index.groups[0].recordings[0].checked);
    assert!(!index.groups[1].checked && !index.groups[1].recordings[0].checked);
    index.select_all();
    assert!(!index.groups[0].checked && !index.groups[0].recordings[0].checked);
    index.set_map_checked("Maps/a", true);
    assert!(index.groups[0].recordings[0].checked);
    index.set_recording_checked("Maps/a", 0, false);
    assert!(!index.groups[0].checked);
}

#[test]
fn compare_needs_exactly_two_per_selected_map() {
    let records = vec![
        raw(1, Some("Maps/a"), None, "A", "A-Side"),
        raw(2, Some("Maps/a"), None, "A", "A-Side"),
        raw(3, Some("Maps/b"), None, "B", "A-Side"),
    ];
    let mut index = RecordingsIndex::new(read_recordings(&records, today()));
    assert!(!index.compare_enabled());
    index.set_map_checked("Maps/a", true);
    assert!(index.compare_enabled());
    index.set_recording_checked("Maps/b", 0, true);
    assert!(!index.compare_enabled());
}

#[test]
fn room_layout_paths() {
    assert!(is_room_layout_path("/x/1_room-layout.json"));
    assert!(!is_room_layout_path("/x/1_position-log.txt"));
    assert!(!is_room_layout_path("json"));
}

#[test]
fn compare_selection_by_map_skips_unnamed_chapters() {
    let records = vec![
        raw(1, Some("Maps/a"), None, "A", "A-Side"),
        raw(2, Some("Maps/b"), None, "B", "A-Side"),
        raw(3, Some("Maps/a"), None, "A", "B-Side"),
        raw(4, Some("Maps/c"), None, "", "A-Side"),
        raw(5, Some("Maps/a"), None, "A", "A-Side"),
    ];
    let mut index = RecordingsIndex::new(read_recordings(&records, today()));
    index.set_map_checked("Maps/b", true);
    index.set_recording_checked("Maps/a", 1, true);
    index.set_map_checked("Maps/c", true);
    // The B-Side group shares "Maps/a" with the first group, which the
    // map-level toggles reach first; select its recording directly.
    let pos = index.groups.iter().position(|g| g.chapter_name == "A B-Side").unwrap();
    index.groups[pos].recordings[0].checked = true;
    assert_eq!(
        index.compare_selection(),
        vec![
            ("Maps/a".to_string(), vec![5, 3]),
            ("Maps/b".to_string(), vec![2]),
        ]
    );
}
