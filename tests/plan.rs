use atlas::plan::{
    directives, entries_for_file, is_git_changed, original_directives, plan_entries,
    temp_file_name, EntrySource, RecordTasSettings, ScriptFile,
};

fn settings(only: bool, tree: bool, recorder: bool) -> RecordTasSettings {
    RecordTasSettings {
        only_record_changes: only,
        record_git_tree: tree,
        enable_tas_recorder: recorder,
        run_as_merged: false,
    }
}

#[test]
fn main_directives_by_settings() {
    let (e, d) = directives(&settings(false, false, false));
    assert_eq!(e, "Set,ConsistencyTracker.LogPhysicsEnabled,true");
    assert_eq!(d, "Set,ConsistencyTracker.LogPhysicsEnabled,false");
    let (e, d) = directives(&settings(false, false, true));
    assert_eq!(e, "Set,ConsistencyTracker.LogPhysicsEnabled,true\nStartRecording");
    assert_eq!(d, "Set,ConsistencyTracker.LogPhysicsEnabled,false\nStopRecording");
    let (e, d) = directives(&settings(false, true, true));
    assert_eq!(
        e,
        "Set,ConsistencyTracker.LogPhysicsEnabled,true\nStartRecording\nStartGhostReplay"
    );
    assert_eq!(d, "Set,ConsistencyTracker.LogPhysicsEnabled,false\nStopRecording");
}

#[test]
fn original_directives_by_settings() {
    let (e, d) = original_directives(&settings(true, true, false));
    assert_eq!(e, "Set,ConsistencyTracker.LogPhysicsEnabled,true");
    assert_eq!(d, "Set,ConsistencyTracker.LogPhysicsEnabled,false");
    let (e, d) = original_directives(&settings(true, true, true));
    assert_eq!(e, "Set,ConsistencyTracker.LogPhysicsEnabled,true\nStartGhostRecording");
    assert_eq!(d, "Set,ConsistencyTracker.LogPhysicsEnabled,false\nStopGhostRecording");
}

#[test]
fn git_change_ignores_crlf() {
    assert_eq!(is_git_changed("abc".into(), "1,J\n", "1,J\r\n"), None);
    assert_eq!(
        is_git_changed("abc".into(), "1,J\n", "2,J\r\n"),
        Some(("abc".to_string(), "1,J\n".to_string()))
    );
}

fn file(baseline: Option<(&str, &str)>) -> ScriptFile {
    ScriptFile {
        path: "/tas/a.tas".into(),
        name: "a.tas".into(),
        baseline: baseline.map(|(o, n)| (o.to_string(), n.to_string())),
    }
}

fn temp_text(s: &EntrySource) -> Option<&str> {
    match s {
        EntrySource::Temp(t) => Some(t.as_str()),
        EntrySource::Path(_) => None,
    }
}

#[test]
fn only_changes_with_tree_puts_original_first() {
    let s = settings(true, true, false);
    let entries = entries_for_file(&file(Some(("1,J\n2,R\n", "1,J\n3,R\n"))), &s);
    assert_eq!(entries.len(), 2);
    assert_eq!(entries[0].label, "a.tas original");
    assert_eq!(
        temp_text(&entries[0].source),
        Some(
            "Set,ConsistencyTracker.LogPhysicsEnabled,false\n1,J\nSet,ConsistencyTracker.LogPhysicsEnabled,true\n2,R\nSet,ConsistencyTracker.LogPhysicsEnabled,false\n"
        )
    );
    assert_eq!(entries[1].label, "a.tas");
    assert_eq!(
        temp_text(&entries[1].source),
        Some(
            "Set,ConsistencyTracker.LogPhysicsEnabled,false\n1,J\nSet,ConsistencyTracker.LogPhysicsEnabled,true\n3,R\nSet,ConsistencyTracker.LogPhysicsEnabled,false\n"
        )
    );
}

#[test]
fn only_changes_without_baseline_plays_file() {
    let s = settings(true, false, false);
    let entries = entries_for_file(&file(None), &s);
    assert_eq!(entries.len(), 1);
    assert!(matches!(&entries[0].source, EntrySource::Path(p) if p == "/tas/a.tas"));
    assert_eq!(entries[0].directives.0, "Set,ConsistencyTracker.LogPhysicsEnabled,true");
}

#[test]
fn whole_file_with_tree_adds_committed_copy_only_when_changed() {
    let s = settings(false, true, false);
    let changed = entries_for_file(&file(Some(("1,J\n", "2,J\n"))), &s);
    assert_eq!(changed.len(), 2);
    assert_eq!(temp_text(&changed[0].source), Some("1,J\n"));
    assert_eq!(changed[0].label, "a.tas original");
    assert!(matches!(&changed[1].source, EntrySource::Path(_)));
    let same = entries_for_file(&file(Some(("1,J\n", "1,J\r\n"))), &s);
    assert_eq!(same.len(), 1);
}

#[test]
fn plan_keeps_file_order() {
    let s = settings(false, false, false);
    let mut b = file(None);
    b.name = "b.tas".into();
    b.path = "/tas/b.tas".into();
    let entries = plan_entries(&vec![file(None), b], &s);
    assert_eq!(entries.len(), 2);
    assert_eq!(entries[0].label, "a.tas");
    assert_eq!(entries[1].label, "b.tas");
}

#[test]
fn temp_names_have_the_right_shape() {
    let a = temp_file_name();
    let b = temp_file_name();
    for n in [&a, &b] {
        assert_eq!(n.len(), 20);
        assert!(n.starts_with("tmp_"));
        assert!(n.ends_with(".tas"));
        assert!(n[4..16].chars().all(|c| c.is_ascii_alphabetic()));
    }
    assert_ne!(a, b);
}

#[test]
fn only_changes_plays_unchanged_file_as_is() {
    let s = settings(true, true, false);
    let entries = entries_for_file(&file(Some(("1,J\n", "1,J\r\n"))), &s);
    assert_eq!(entries.len(), 1);
    assert!(matches!(&entries[0].source, EntrySource::Path(p) if p == "/tas/a.tas"));
    assert_eq!(entries[0].label, "a.tas");
    assert_eq!(entries[0].directives.0, "Set,ConsistencyTracker.LogPhysicsEnabled,true");
    let entries = entries_for_file(&file(Some(("1,J\n", "1,J\n"))), &settings(true, false, false));
    assert_eq!(entries.len(), 1);
    assert!(matches!(&entries[0].source, EntrySource::Path(_)));
}
