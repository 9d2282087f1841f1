//! Progress of a run: the status line and the fraction shown for each
//! status report, a fraction that never goes back within one run.

use vstd::prelude::*;

use crate::text::{chars_of, decimal, parse_u32, parse_u32_chars, push_all, push_decimal, string_of};

verus! {

/// A fraction `num / den`; the ones this module hands out have `den > 0`.
#[derive(Clone, Copy, Debug, PartialEq, Eq, Structural)]
pub struct Fraction {
    pub num: u64,
    pub den: u64,
}

pub open spec fn frac_lt(a: Fraction, b: Fraction) -> bool {
    a.num * b.den < b.num * a.den
}

pub open spec fn frac_le(a: Fraction, b: Fraction) -> bool {
    a.num * b.den <= b.num * a.den
}

pub open spec fn one() -> Fraction {
    Fraction { num: 1, den: 1 }
}

/// One status report of the engine while it runs scripts. `origin` names
/// the script being played when several are played one after another.
pub struct RunStatus {
    pub current_file: u32,
    pub total_files: u32,
    pub current_frame: String,
    pub total_frames: String,
    pub origin: Option<String>,
}

/// How far the current script is: current over total frames where both
/// read as numbers and the total is not zero, else complete.
pub open spec fn frame_fraction(current: Seq<char>, total: Seq<char>) -> Fraction {
    match (parse_u32(current), parse_u32(total)) {
        (Some(c), Some(t)) => if t > 0 {
            Fraction { num: c as u64, den: t as u64 }
        } else {
            one()
        },
        _ => one(),
    }
}

/// At most the whole: `f` where it is at most one, else one.
pub open spec fn capped(f: Fraction) -> Fraction {
    if f.num > f.den {
        one()
    } else {
        f
    }
}

/// How far the whole run is: with an origin, the finished files plus the
/// current one's frame fraction, over the number of files; else the frame
/// fraction alone; in both cases at most one.
pub open spec fn status_fraction(s: RunStatus) -> Fraction {
    let f = frame_fraction(s.current_frame@, s.total_frames@);
    match s.origin {
        Some(_) => if s.total_files > 0 {
            capped(
                Fraction {
                    num: (s.current_file * f.den + f.num) as u64,
                    den: (f.den * s.total_files) as u64,
                },
            )
        } else {
            one()
        },
        None => capped(f),
    }
}

/// `"<file>/<files> <origin>: <frame>/<frames>"`, with the file counted from
/// one, or `"<frame>/<frames>"` without an origin.
pub open spec fn status_text(s: RunStatus) -> Seq<char> {
    let frames = s.current_frame@ + seq!['/'] + s.total_frames@;
    match s.origin {
        Some(o) => decimal((s.current_file + 1) as nat) + seq!['/'] + decimal(s.total_files as nat)
            + seq![' '] + o@ + seq![':', ' '] + frames,
        None => frames,
    }
}

/// The fraction shown after a report: the report's own where it is larger
/// than the one shown, else the one shown.
pub open spec fn step(shown: Fraction, s: RunStatus) -> Fraction {
    if frac_lt(shown, status_fraction(s)) {
        status_fraction(s)
    } else {
        shown
    }
}

/// The fraction shown after each report of `reports` in turn.
pub open spec fn shown_after(start: Fraction, reports: Seq<RunStatus>) -> Fraction
    decreases reports.len(),
{
    if reports.len() == 0 {
        start
    } else {
        step(shown_after(start, reports.drop_last()), reports.last())
    }
}

proof fn lemma_frac_le_trans(a: Fraction, b: Fraction, c: Fraction)
    requires
        a.den > 0,
        b.den > 0,
        c.den > 0,
        frac_le(a, b),
        frac_le(b, c),
    ensures
        frac_le(a, c),
{
    let (an, ad, bn, bd, cn, cd) = (
        a.num as int,
        a.den as int,
        b.num as int,
        b.den as int,
        c.num as int,
        c.den as int,
    );
    assert(an * bd * cd <= bn * ad * cd) by (nonlinear_arith)
        requires
            an * bd <= bn * ad,
            cd > 0,
    ;
    assert(bn * cd * ad <= cn * bd * ad) by (nonlinear_arith)
        requires
            bn * cd <= cn * bd,
            ad > 0,
    ;
    assert(an * cd * bd <= cn * ad * bd) by (nonlinear_arith)
        requires
            an * bd * cd <= bn * ad * cd,
            bn * cd * ad <= cn * bd * ad,
    ;
    assert(an * cd <= cn * ad) by (nonlinear_arith)
        requires
            an * cd * bd <= cn * ad * bd,
            bd > 0,
    ;
}

proof fn lemma_status_fraction_den(s: RunStatus)
    ensures
        status_fraction(s).den > 0,
        frac_le(status_fraction(s), one()),
{
    let f = frame_fraction(s.current_frame@, s.total_frames@);
    assert(f.den > 0);
    assert(f.num <= u32::MAX && f.den <= u32::MAX);
    if s.origin is Some && s.total_files > 0 {
        assert(s.current_file as int * f.den as int + f.num as int <= u32::MAX as int * u32::MAX as int
            + u32::MAX as int) by (nonlinear_arith)
            requires
                s.current_file <= u32::MAX,
                f.den <= u32::MAX,
                f.num <= u32::MAX,
        ;
        assert(f.den as int * s.total_files as int > 0) by (nonlinear_arith)
            requires
                f.den > 0,
                s.total_files > 0,
        ;
        assert(f.den as int * s.total_files as int <= u32::MAX as int * u32::MAX as int)
            by (nonlinear_arith)
            requires
                f.den <= u32::MAX,
                s.total_files <= u32::MAX,
        ;
    }
}

proof fn lemma_shown_after_den(start: Fraction, reports: Seq<RunStatus>)
    requires
        start.den > 0,
    ensures
        shown_after(start, reports).den > 0,
    decreases reports.len(),
{
    if reports.len() > 0 {
        lemma_shown_after_den(start, reports.drop_last());
        lemma_status_fraction_den(reports.last());
    }
}

/// Within one run the fraction shown never goes back: after the first `i`
/// reports it is at most what it is after the first `j >= i`, whatever the
/// reports say (frame counters start again from zero for each file).
pub proof fn lemma_shown_fraction_never_regresses(
    start: Fraction,
    reports: Seq<RunStatus>,
    i: int,
    j: int,
)
    requires
        start.den > 0,
        0 <= i <= j <= reports.len(),
    ensures
        frac_le(shown_after(start, reports.take(i)), shown_after(start, reports.take(j))),
    decreases j - i,
{
    if i == j {
        let a = shown_after(start, reports.take(i));
        assert(a.num * a.den <= a.num * a.den);
    } else {
        lemma_shown_fraction_never_regresses(start, reports, i, j - 1);
        let prev = shown_after(start, reports.take(j - 1));
        assert(reports.take(j).drop_last() =~= reports.take(j - 1));
        let next = shown_after(start, reports.take(j));
        lemma_shown_after_den(start, reports.take(i));
        lemma_shown_after_den(start, reports.take(j - 1));
        lemma_shown_after_den(start, reports.take(j));
        assert(frac_le(prev, next)) by {
            if frac_lt(prev, status_fraction(reports[j - 1])) {
                assert(reports.take(j).last() == reports[j - 1]);
            } else {
                assert(prev.num * prev.den <= prev.num * prev.den);
            }
        }
        lemma_frac_le_trans(shown_after(start, reports.take(i)), prev, next);
    }
}

fn less_than(a: Fraction, b: Fraction) -> (r: bool)
    ensures
        r == frac_lt(a, b),
{
    proof {
        assert(a.num as int * b.den as int <= u64::MAX as int * u64::MAX as int)
            by (nonlinear_arith)
            requires
                a.num <= u64::MAX,
                b.den <= u64::MAX,
        ;
        assert(b.num as int * a.den as int <= u64::MAX as int * u64::MAX as int)
            by (nonlinear_arith)
            requires
                b.num <= u64::MAX,
                a.den <= u64::MAX,
        ;
    }
    (a.num as u128) * (b.den as u128) < (b.num as u128) * (a.den as u128)
}

/// The fraction that a status report stands for.
pub fn fraction_of(s: &RunStatus) -> (r: Fraction)
    ensures
        r == status_fraction(*s),
        r.den > 0,
        frac_le(r, one()),
{
    let cur = chars_of(s.current_frame.as_str());
    let tot = chars_of(s.total_frames.as_str());
    let f = match (parse_u32_chars(&cur), parse_u32_chars(&tot)) {
        (Some(c), Some(t)) => if t > 0 {
            Fraction { num: c as u64, den: t as u64 }
        } else {
            Fraction { num: 1, den: 1 }
        },
        _ => Fraction { num: 1, den: 1 },
    };
    proof {
        lemma_status_fraction_den(*s);
    }
    match s.origin {
        Some(_) => if s.total_files > 0 {
            proof {
                assert(s.current_file as int * f.den as int + f.num as int <= u32::MAX as int
                    * u32::MAX as int + u32::MAX as int) by (nonlinear_arith)
                    requires
                        s.current_file <= u32::MAX,
                        f.den <= u32::MAX,
                        f.num <= u32::MAX,
                ;
                assert(f.den as int * s.total_files as int <= u32::MAX as int * u32::MAX as int)
                    by (nonlinear_arith)
                    requires
                        s.total_files <= u32::MAX,
                        f.den <= u32::MAX,
                ;
            }
            let whole = Fraction {
                num: s.current_file as u64 * f.den + f.num,
                den: f.den * s.total_files as u64,
            };
            if whole.num > whole.den {
                Fraction { num: 1, den: 1 }
            } else {
                whole
            }
        } else {
            Fraction { num: 1, den: 1 }
        },
        None => if f.num > f.den {
            Fraction { num: 1, den: 1 }
        } else {
            f
        },
    }
}

/// The status line for a report.
pub fn text_of(s: &RunStatus) -> (r: String)
    ensures
        r@ == status_text(*s),
{
    let cur = chars_of(s.current_frame.as_str());
    let tot = chars_of(s.total_frames.as_str());
    let mut out: Vec<char> = Vec::new();
    match &s.origin {
        Some(o) => {
            push_decimal(&mut out, s.current_file as u64 + 1);
            out.push('/');
            push_decimal(&mut out, s.total_files as u64);
            out.push(' ');
            let oc = chars_of(o.as_str());
            push_all(&mut out, &oc);
            out.push(':');
            out.push(' ');
        },
        None => {},
    }
    push_all(&mut out, &cur);
    out.push('/');
    push_all(&mut out, &tot);
    proof {
        let frames = s.current_frame@ + seq!['/'] + s.total_frames@;
        match &s.origin {
            Some(o) => {
                assert(out@ =~= decimal((s.current_file + 1) as nat) + seq!['/'] + decimal(
                    s.total_files as nat,
                ) + seq![' '] + o@ + seq![':', ' '] + frames);
            },
            None => {
                assert(out@ =~= frames);
            },
        }
    }
    string_of(&out)
}

/// What the display should do after a report or at the end of a run: show
/// `text`, and show `fraction` where it is given.
pub struct ProgressUpdate {
    pub text: String,
    pub fraction: Option<Fraction>,
}

/// The fraction shown so far in one run.
pub struct ProgressTracker {
    pub shown: Fraction,
}

impl ProgressTracker {
    /// The fraction shown has a positive denominator and is at most one.
    pub open spec fn wf(&self) -> bool {
        self.shown.den > 0 && frac_le(self.shown, one())
    }

    /// A run that has shown nothing yet: the fraction shown is zero.
    pub fn new() -> (r: ProgressTracker)
        ensures
            r.shown == (Fraction { num: 0, den: 1 }),
            r.wf(),
    {
        ProgressTracker { shown: Fraction { num: 0, den: 1 } }
    }

    /// Takes a status report: its line is always shown, its fraction only
    /// where it is larger than the one shown so far.
    pub fn update(&mut self, status: &RunStatus) -> (u: ProgressUpdate)
        requires
            old(self).wf(),
        ensures
            final(self).wf(),
            final(self).shown == step(old(self).shown, *status),
            u.text@ == status_text(*status),
            u.fraction == (if frac_lt(old(self).shown, status_fraction(*status)) {
                Some(status_fraction(*status))
            } else {
                None
            }),
            frac_le(final(self).shown, one()),
            u.fraction matches Some(f) ==> f.den > 0 && frac_le(f, one()),
    {
        let f = fraction_of(status);
        let text = text_of(status);
        if less_than(self.shown, f) {
            self.shown = f;
            ProgressUpdate { text, fraction: Some(f) }
        } else {
            ProgressUpdate { text, fraction: None }
        }
    }

    /// Ends the run: `"Done!"` on success, the error's text on failure, and
    /// the whole bar in both cases.
    pub fn finish(&mut self, outcome: &Result<(), String>) -> (u: ProgressUpdate)
        ensures
            final(self).shown == one(),
            final(self).wf(),
            u.fraction == Some(one()),
            outcome is Ok ==> u.text@ == "Done!"@,
            outcome is Err ==> u.text@ == outcome->Err_0@,
    {
        self.shown = Fraction { num: 1, den: 1 };
        let text = match outcome {
            Ok(()) => "Done!".to_owned(),
            Err(e) => e.clone(),
        };
        ProgressUpdate { text, fraction: Some(Fraction { num: 1, den: 1 }) }
    }
}

} // verus!
