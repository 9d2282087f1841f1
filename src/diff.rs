//! Placing the physics-logging window of a TAS script around the part that
//! differs from an earlier version of it.

use vstd::prelude::*;

use crate::text::{
    chars_of, has_prefix_at, is_prefix, lines_of, push_all, same_chars, split_lines, string_of,
    trim_start, views_of, ws_end,
};

verus! {

/// A line matters for the comparison unless, after its leading whitespace,
/// it is a comment or one of the volatile metadata fields.
pub open spec fn care_about(l: Seq<char>) -> bool {
    let t = trim_start(l);
    !is_prefix("#"@, t) && !is_prefix("FileTime"@, t) && !is_prefix("ChapterTime"@, t)
        && !is_prefix("RecordCount"@, t)
}

/// Two paired lines differ in a way that matters.
pub open spec fn differs(a: Seq<char>, b: Seq<char>) -> bool {
    a != b && (care_about(a) || care_about(b))
}

/// Number of line pairs that the scans compare: the shorter of the two.
pub open spec fn paired_len(o: Seq<Seq<char>>, n: Seq<Seq<char>>) -> int {
    if o.len() < n.len() {
        o.len() as int
    } else {
        n.len() as int
    }
}

/// First index at or after `k`, counted from the start, where the lines differ.
pub open spec fn first_change_from(o: Seq<Seq<char>>, n: Seq<Seq<char>>, k: int) -> Option<int>
    decreases paired_len(o, n) - k,
{
    if 0 <= k < paired_len(o, n) {
        if differs(o[k], n[k]) {
            Some(k)
        } else {
            first_change_from(o, n, k + 1)
        }
    } else {
        None
    }
}

/// First offset at or after `k`, counted from the end of each side, where
/// the lines differ.
pub open spec fn last_change_from(o: Seq<Seq<char>>, n: Seq<Seq<char>>, k: int) -> Option<int>
    decreases paired_len(o, n) - k,
{
    if 0 <= k < paired_len(o, n) {
        if differs(o[o.len() - 1 - k], n[n.len() - 1 - k]) {
            Some(k)
        } else {
            last_change_from(o, n, k + 1)
        }
    } else {
        None
    }
}

/// What line `i` of the new script becomes: the enable block before it when
/// it is the first changed line, the disable block after it when it is the
/// last one.
pub open spec fn piece(
    lines: Seq<Seq<char>>,
    i: int,
    first: int,
    last: int,
    enable: Seq<char>,
    disable: Seq<char>,
) -> Seq<char> {
    let before = if i == first {
        enable.push('\n')
    } else {
        Seq::empty()
    };
    let after = if i == last {
        disable.push('\n')
    } else {
        Seq::empty()
    };
    before + lines[i].push('\n') + after
}

/// The first `k` lines of the new script, each as `piece` gives it.
pub open spec fn emit(
    lines: Seq<Seq<char>>,
    first: int,
    last: int,
    enable: Seq<char>,
    disable: Seq<char>,
    k: int,
) -> Seq<char>
    decreases k,
{
    if k <= 0 {
        Seq::empty()
    } else {
        emit(lines, first, last, enable, disable, k - 1) + piece(
            lines,
            k - 1,
            first,
            last,
            enable,
            disable,
        )
    }
}

/// The new script with the logging window around its changed part, or the
/// new script unchanged where no pair of lines differs in a way that matters.
pub open spec fn segment(
    old: Seq<char>,
    new: Seq<char>,
    enable: Seq<char>,
    disable: Seq<char>,
) -> Seq<char> {
    let o = lines_of(old);
    let n = lines_of(new);
    match (first_change_from(o, n, 0), last_change_from(o, n, 0)) {
        (Some(f), Some(b)) => disable.push('\n') + emit(
            n,
            f,
            n.len() - 1 - b,
            enable,
            disable,
            n.len() as int,
        ),
        _ => new,
    }
}

proof fn lemma_no_first_change(o: Seq<Seq<char>>, n: Seq<Seq<char>>, k: int)
    requires
        0 <= k,
        forall|i: int| k <= i < paired_len(o, n) ==> !differs(o[i], n[i]),
    ensures
        first_change_from(o, n, k) is None,
    decreases paired_len(o, n) - k,
{
    if k < paired_len(o, n) {
        lemma_no_first_change(o, n, k + 1);
    }
}

/// Where every pair of lines that differs consists of lines that do not
/// matter (comments and volatile metadata), the script comes back unchanged.
pub proof fn lemma_insignificant_changes_keep_new(
    old: Seq<char>,
    new: Seq<char>,
    enable: Seq<char>,
    disable: Seq<char>,
)
    requires
        forall|i: int|
            0 <= i < paired_len(lines_of(old), lines_of(new)) && lines_of(old)[i] != lines_of(
                new,
            )[i] ==> !care_about(lines_of(old)[i]) && !care_about(lines_of(new)[i]),
    ensures
        segment(old, new, enable, disable) == new,
{
    lemma_no_first_change(lines_of(old), lines_of(new), 0);
}

/// Segmenting a script against itself changes nothing; in particular,
/// segmenting an output of `segment` against itself gives it back as it is.
pub proof fn lemma_segment_identical_is_identity(s: Seq<char>, enable: Seq<char>, disable: Seq<char>)
    ensures
        segment(s, s, enable, disable) == s,
{
    lemma_insignificant_changes_keep_new(s, s, enable, disable);
}

/// Whether a line matters for the comparison.
pub fn care_about_line(l: &Vec<char>) -> (r: bool)
    ensures
        r == care_about(l@),
{
    let k = ws_end(l);
    !has_prefix_at(l, k, "#") && !has_prefix_at(l, k, "FileTime") && !has_prefix_at(
        l,
        k,
        "ChapterTime",
    ) && !has_prefix_at(l, k, "RecordCount")
}

fn lines_differ(a: &Vec<char>, b: &Vec<char>) -> (r: bool)
    ensures
        r == differs(a@, b@),
{
    !same_chars(a, b) && (care_about_line(a) || care_about_line(b))
}

/// Runs `new` with physics logging switched off, except from the first to
/// the last line that differs from `old` in a way that matters; `decorate`
/// holds the blocks that switch logging on and off.
pub fn physics_log_in_diff(old: &str, new: &str, decorate: (String, String)) -> (r: String)
    ensures
        r@ == segment(old@, new@, decorate.0@, decorate.1@),
{
    let oc = chars_of(old);
    let nc = chars_of(new);
    let ol = split_lines(&oc);
    let nl = split_lines(&nc);
    let ghost o = views_of(ol@);
    let ghost n = views_of(nl@);
    let m = if ol.len() < nl.len() {
        ol.len()
    } else {
        nl.len()
    };

    let mut i: usize = 0;
    let mut found = false;
    while i < m && !found
        invariant
            m == paired_len(o, n),
            o == views_of(ol@),
            n == views_of(nl@),
            o.len() == ol.len(),
            n.len() == nl.len(),
            i <= m,
            found ==> i < m && first_change_from(o, n, 0) == Some(i as int),
            !found ==> first_change_from(o, n, 0) == first_change_from(o, n, i as int),
        decreases m - i + (if found { 0int } else { 1int }),
    {
        proof {
            assert(o[i as int] == ol@[i as int]@);
            assert(n[i as int] == nl@[i as int]@);
        }
        if lines_differ(&ol[i], &nl[i]) {
            found = true;
        } else {
            i = i + 1;
        }
    }
    if !found {
        return new.to_owned();
    }
    let first = i;

    let mut k: usize = 0;
    let mut found_rev = false;
    while k < m && !found_rev
        invariant
            m == paired_len(o, n),
            o == views_of(ol@),
            n == views_of(nl@),
            o.len() == ol.len(),
            n.len() == nl.len(),
            k <= m,
            found_rev ==> k < m && last_change_from(o, n, 0) == Some(k as int),
            !found_rev ==> last_change_from(o, n, 0) == last_change_from(o, n, k as int),
        decreases m - k + (if found_rev { 0int } else { 1int }),
    {
        proof {
            assert(o[o.len() - 1 - k] == ol@[ol.len() - 1 - k]@);
            assert(n[n.len() - 1 - k] == nl@[nl.len() - 1 - k]@);
        }
        if lines_differ(&ol[ol.len() - 1 - k], &nl[nl.len() - 1 - k]) {
            found_rev = true;
        } else {
            k = k + 1;
        }
    }
    if !found_rev {
        return new.to_owned();
    }
    let last = nl.len() - 1 - k;

    let enable = chars_of(decorate.0.as_str());
    let disable = chars_of(decorate.1.as_str());
    let mut out: Vec<char> = Vec::new();
    push_all(&mut out, &disable);
    out.push('\n');
    let ghost head = out@;
    for j in 0..nl.len()
        invariant
            n.len() == nl.len(),
            n == views_of(nl@),
            head == disable@.push('\n'),
            out@ == head + emit(n, first as int, last as int, enable@, disable@, j as int),
    {
        let ghost before = out@;
        if j == first {
            push_all(&mut out, &enable);
            out.push('\n');
        }
        push_all(&mut out, &nl[j]);
        out.push('\n');
        if j == last {
            push_all(&mut out, &disable);
            out.push('\n');
        }
        proof {
            assert(n[j as int] == nl@[j as int]@);
            assert(out@ =~= before + piece(
                n,
                j as int,
                first as int,
                last as int,
                enable@,
                disable@,
            ));
            assert(emit(n, first as int, last as int, enable@, disable@, j + 1) == emit(
                n,
                first as int,
                last as int,
                enable@,
                disable@,
                j as int,
            ) + piece(n, j as int, first as int, last as int, enable@, disable@));
            assert(out@ =~= head + emit(
                n,
                first as int,
                last as int,
                enable@,
                disable@,
                j + 1,
            ));
        }
    }
    string_of(&out)
}

} // verus!
