//! Which scripts a recording run plays, in which order, with which logging
//! directives, and which of them are first written to temporary files.

use vstd::prelude::*;

use crate::diff::{physics_log_in_diff, segment};
use crate::text::{chars_of, crlf_to_lf, crlf_to_lf_chars, same_chars, string_of};

verus! {

/// The choices of a recording run that decide its plan.
#[derive(Clone, Copy, Debug, PartialEq, Eq, Structural)]
pub struct RecordTasSettings {
    /// Log physics only around the lines changed since the last commit.
    pub only_record_changes: bool,
    /// Also play the committed version of each changed script, before it.
    pub record_git_tree: bool,
    /// Capture video with the TAS recorder mod.
    pub enable_tas_recorder: bool,
    /// Play all scripts as one session.
    pub run_as_merged: bool,
}

/// Ghost capture takes both the committed version and the recorder.
pub open spec fn records_ghost(s: RecordTasSettings) -> bool {
    s.record_git_tree && s.enable_tas_recorder
}

pub open spec fn opt(b: bool, t: Seq<char>) -> Seq<char> {
    if b {
        t
    } else {
        Seq::empty()
    }
}

/// Block that starts logging in the scripts that are recorded as they are now.
pub open spec fn main_enable(s: RecordTasSettings) -> Seq<char> {
    "Set,ConsistencyTracker.LogPhysicsEnabled,true"@ + opt(
        s.enable_tas_recorder,
        "\nStartRecording"@,
    ) + opt(records_ghost(s), "\nStartGhostReplay"@)
}

/// Block that stops logging in the scripts that are recorded as they are now.
pub open spec fn main_disable(s: RecordTasSettings) -> Seq<char> {
    "Set,ConsistencyTracker.LogPhysicsEnabled,false"@ + opt(
        s.enable_tas_recorder,
        "\nStopRecording"@,
    )
}

/// Block that starts logging in the committed versions of the scripts.
pub open spec fn original_enable(s: RecordTasSettings) -> Seq<char> {
    "Set,ConsistencyTracker.LogPhysicsEnabled,true"@ + opt(
        records_ghost(s),
        "\nStartGhostRecording"@,
    )
}

/// Block that stops logging in the committed versions of the scripts.
pub open spec fn original_disable(s: RecordTasSettings) -> Seq<char> {
    "Set,ConsistencyTracker.LogPhysicsEnabled,false"@ + opt(
        records_ghost(s),
        "\nStopGhostRecording"@,
    )
}

fn push_if(out: &mut String, b: bool, t: &str)
    ensures
        final(out)@ == old(out)@ + opt(b, t@),
{
    if b {
        out.append(t);
    } else {
        assert(old(out)@ + opt(b, t@) =~= old(out)@);
    }
}

/// The enable and disable blocks for the scripts as they are now.
pub fn directives(s: &RecordTasSettings) -> (r: (String, String))
    ensures
        r.0@ == main_enable(*s),
        r.1@ == main_disable(*s),
{
    let ghost_capture = s.record_git_tree && s.enable_tas_recorder;
    let mut begin = "Set,ConsistencyTracker.LogPhysicsEnabled,true".to_owned();
    let mut end = "Set,ConsistencyTracker.LogPhysicsEnabled,false".to_owned();
    push_if(&mut begin, s.enable_tas_recorder, "\nStartRecording");
    push_if(&mut begin, ghost_capture, "\nStartGhostReplay");
    push_if(&mut end, s.enable_tas_recorder, "\nStopRecording");
    (begin, end)
}

/// The enable and disable blocks for the committed versions of the scripts.
pub fn original_directives(s: &RecordTasSettings) -> (r: (String, String))
    ensures
        r.0@ == original_enable(*s),
        r.1@ == original_disable(*s),
{
    let ghost_capture = s.record_git_tree && s.enable_tas_recorder;
    let mut begin = "Set,ConsistencyTracker.LogPhysicsEnabled,true".to_owned();
    let mut end = "Set,ConsistencyTracker.LogPhysicsEnabled,false".to_owned();
    push_if(&mut begin, ghost_capture, "\nStartGhostRecording");
    push_if(&mut end, ghost_capture, "\nStopGhostRecording");
    (begin, end)
}

/// The committed text differs from the text on disk once its line endings
/// are made `"\n"`.
pub open spec fn content_changed(committed: Seq<char>, current: Seq<char>) -> bool {
    committed != crlf_to_lf(current)
}

fn changed(committed: &str, current: &str) -> (r: bool)
    ensures
        r == content_changed(committed@, current@),
{
    let a = chars_of(committed);
    let b = chars_of(current);
    let b_lf = crlf_to_lf_chars(&b);
    !same_chars(&a, &b_lf)
}

/// The commit label and the committed text of a script, where that text
/// differs from the one on disk (`commit_id` names the commit that holds
/// `committed`), and `None` where the two agree.
pub fn is_git_changed(commit_id: String, committed: &str, current: &str) -> (r: Option<
    (String, String),
>)
    ensures
        r is Some <==> content_changed(committed@, current@),
        r matches Some(p) ==> p.0@ == commit_id@ && p.1@ == committed@,
{
    if changed(committed, current) {
        Some((commit_id, committed.to_owned()))
    } else {
        None
    }
}


/// A script chosen for a run: where it is, the name shown for it, and,
/// where it lies in a repository, its committed text and its text on disk.
pub struct ScriptFile {
    pub path: String,
    pub name: String,
    pub baseline: Option<(String, String)>,
}

/// Where the engine reads an entry from: the script's own file, or a
/// temporary file to be written with the given text.
pub enum EntrySource {
    Path(String),
    Temp(String),
}

/// One script that the run plays, with its label and logging directives.
pub struct PlannedEntry {
    pub source: EntrySource,
    pub label: String,
    pub directives: (String, String),
}

/// An entry as plain values: whether it is temporary, its path or text,
/// its label, its enable and its disable block.
pub type EntryView = (bool, Seq<char>, Seq<char>, Seq<char>, Seq<char>);

pub open spec fn entry_view(e: PlannedEntry) -> EntryView {
    (
        e.source is Temp,
        match e.source {
            EntrySource::Path(p) => p@,
            EntrySource::Temp(t) => t@,
        },
        e.label@,
        e.directives.0@,
        e.directives.1@,
    )
}

pub open spec fn entry_views(v: Seq<PlannedEntry>) -> Seq<EntryView> {
    v.map_values(|e: PlannedEntry| entry_view(e))
}

/// The entries that one script contributes, in order. A script without a
/// committed text, or whose committed text equals its text on disk, is
/// played from its own file with the main directives.
pub open spec fn file_entries(f: ScriptFile, s: RecordTasSettings) -> Seq<EntryView> {
    let (me, md) = (main_enable(s), main_disable(s));
    let (oe, od) = (original_enable(s), original_disable(s));
    let name = f.name@;
    let original_label = name + " original"@;
    let as_is: EntryView = (false, f.path@, name, me, md);
    if s.only_record_changes {
        match f.baseline {
            Some(b) => if content_changed(b.0@, b.1@) {
                let forward: EntryView = (true, segment(b.0@, b.1@, me, md), name, me, md);
                if s.record_git_tree {
                    seq![(true, segment(b.1@, b.0@, oe, od), original_label, oe, od), forward]
                } else {
                    seq![forward]
                }
            } else {
                seq![as_is]
            },
            None => seq![as_is],
        }
    } else {
        match f.baseline {
            Some(b) => if s.record_git_tree && content_changed(b.0@, b.1@) {
                seq![(true, b.0@, original_label, oe, od), as_is]
            } else {
                seq![as_is]
            },
            None => seq![as_is],
        }
    }
}

/// The entries of a whole run: each script's in the order chosen.
pub open spec fn plan_of(files: Seq<ScriptFile>, s: RecordTasSettings) -> Seq<EntryView>
    decreases files.len(),
{
    if files.len() == 0 {
        Seq::empty()
    } else {
        plan_of(files.drop_last(), s) + file_entries(files.last(), s)
    }
}

fn copy_pair(p: &(String, String)) -> (r: (String, String))
    ensures
        r.0@ == p.0@,
        r.1@ == p.1@,
{
    (p.0.clone(), p.1.clone())
}

fn original_label(name: &String) -> (r: String)
    ensures
        r@ == name@ + " original"@,
{
    let mut l = name.clone();
    l.append(" original");
    l
}

/// The entries that one script contributes to a run.
pub fn entries_for_file(f: &ScriptFile, s: &RecordTasSettings) -> (r: Vec<PlannedEntry>)
    ensures
        entry_views(r@) == file_entries(*f, *s),
{
    let main = directives(s);
    let orig = original_directives(s);
    let mut r: Vec<PlannedEntry> = Vec::new();
    let ghost target = file_entries(*f, *s);
    if s.only_record_changes {
        match &f.baseline {
            Some(b) => if changed(b.0.as_str(), b.1.as_str()) {
                if s.record_git_tree {
                    let text = physics_log_in_diff(b.1.as_str(), b.0.as_str(), copy_pair(&orig));
                    r.push(
                        PlannedEntry {
                            source: EntrySource::Temp(text),
                            label: original_label(&f.name),
                            directives: copy_pair(&orig),
                        },
                    );
                }
                let text = physics_log_in_diff(b.0.as_str(), b.1.as_str(), copy_pair(&main));
                r.push(
                    PlannedEntry {
                        source: EntrySource::Temp(text),
                        label: f.name.clone(),
                        directives: copy_pair(&main),
                    },
                );
                proof {
                    assert(entry_views(r@) =~= target);
                }
                return r;
            },
            _ => {},
        }
    } else {
        match &f.baseline {
            Some(b) => {
                if s.record_git_tree && changed(b.0.as_str(), b.1.as_str()) {
                    r.push(
                        PlannedEntry {
                            source: EntrySource::Temp(b.0.clone()),
                            label: original_label(&f.name),
                            directives: copy_pair(&orig),
                        },
                    );
                }
            },
            None => {},
        }
    }
    r.push(
        PlannedEntry {
            source: EntrySource::Path(f.path.clone()),
            label: f.name.clone(),
            directives: main,
        },
    );
    proof {
        assert(entry_views(r@) =~= target);
    }
    r
}

/// The entries of a run over `files`, in order: for each script, its
/// committed version first where one is recorded, then the script itself.
pub fn plan_entries(files: &Vec<ScriptFile>, s: &RecordTasSettings) -> (r: Vec<PlannedEntry>)
    ensures
        entry_views(r@) == plan_of(files@, *s),
{
    let mut r: Vec<PlannedEntry> = Vec::new();
    for i in 0..files.len()
        invariant
            entry_views(r@) == plan_of(files@.take(i as int), *s),
    {
        let mut more = entries_for_file(&files[i], s);
        let ghost before = r@;
        let ghost added = more@;
        r.append(&mut more);
        proof {
            assert(files@.take(i + 1).drop_last() =~= files@.take(i as int));
            assert(files@.take(i + 1).last() == files@[i as int]);
            assert(entry_views(r@) =~= entry_views(before) + entry_views(added));
        }
    }
    proof {
        assert(files@.take(files@.len() as int) =~= files@);
    }
    r
}


pub open spec fn is_ascii_letter(c: char) -> bool {
    ('a' <= c <= 'z') || ('A' <= c <= 'Z')
}

/// Relies on `fastrand::alphabetic`: a random letter from `a-z` or `A-Z`.
#[verifier::external_body]
fn random_letter() -> (c: char)
    ensures
        is_ascii_letter(c),
{
    fastrand::alphabetic()
}

/// A fresh name for a temporary script: `tmp_`, twelve random ASCII
/// letters, then `.tas`.
pub fn temp_file_name() -> (r: String)
    ensures
        r@.len() == 20,
        r@.take(4) == "tmp_"@,
        r@.skip(16) == ".tas"@,
        forall|i: int| 4 <= i < 16 ==> is_ascii_letter(#[trigger] r@[i]),
{
    let mut v: Vec<char> = chars_of("tmp_");
    proof {
        reveal_strlit("tmp_");
    }
    for k in 0..12usize
        invariant
            v@.len() == 4 + k,
            v@.take(4) == "tmp_"@,
            forall|i: int| 4 <= i < v@.len() ==> is_ascii_letter(#[trigger] v@[i]),
    {
        let c = random_letter();
        let ghost prev = v@;
        v.push(c);
        proof {
            assert(v@.take(4) =~= prev.take(4));
        }
    }
    let ghost mid = v@;
    let ext = chars_of(".tas");
    proof {
        reveal_strlit(".tas");
    }
    crate::text::push_all(&mut v, &ext);
    proof {
        assert(v@.take(4) =~= mid.take(4));
        assert(v@.skip(16) =~= ext@);
        assert forall|i: int| 4 <= i < 16 implies is_ascii_letter(#[trigger] v@[i]) by {
            assert(v@[i] == mid[i]);
        }
    }
    string_of(&v)
}

} // verus!
