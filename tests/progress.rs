use atlas::progress::{fraction_of, text_of, Fraction, ProgressTracker, RunStatus};

fn status(file: u32, files: u32, cur: &str, total: &str, origin: Option<&str>) -> RunStatus {
    RunStatus {
        current_file: file,
        total_files: files,
        current_frame: cur.to_string(),
        total_frames: total.to_string(),
        origin: origin.map(|o| o.to_string()),
    }
}

#[test]
fn single_file_fraction_and_text() {
    let s = status(0, 1, "30", "120", None);
    assert_eq!(fraction_of(&s), Fraction { num: 30, den: 120 });
    assert_eq!(text_of(&s), "30/120");
}

#[test]
fn multi_file_fraction_and_text() {
    let s = status(1, 4, "50", "100", Some("b.tas"));
    assert_eq!(fraction_of(&s), Fraction { num: 150, den: 400 });
    assert_eq!(text_of(&s), "2/4 b.tas: 50/100");
}

#[test]
fn unparsable_frames_count_as_done() {
    assert_eq!(fraction_of(&status(0, 1, "abc", "100", None)), Fraction { num: 1, den: 1 });
    assert_eq!(fraction_of(&status(2, 3, "5", "", Some("c"))), Fraction { num: 3, den: 3 });
    assert_eq!(fraction_of(&status(0, 1, "+5", "10", None)), Fraction { num: 5, den: 10 });
    assert_eq!(
        fraction_of(&status(0, 1, "4294967296", "10", None)),
        Fraction { num: 1, den: 1 }
    );
    assert_eq!(fraction_of(&status(0, 1, "+", "10", None)), Fraction { num: 1, den: 1 });
}

#[test]
fn shown_fraction_never_regresses() {
    let mut t = ProgressTracker::new();
    let steps = [
        status(0, 2, "90", "100", Some("a")),
        status(1, 2, "0", "100", Some("b")),
        status(1, 2, "5", "100", Some("b")),
        status(1, 2, "50", "100", Some("b")),
    ];
    let mut shown: Vec<f64> = Vec::new();
    let mut last = 0.0f64;
    for s in &steps {
        let u = t.update(s);
        if let Some(f) = u.fraction {
            last = f.num as f64 / f.den as f64;
        }
        shown.push(last);
    }
    assert_eq!(shown, vec![0.45, 0.5, 0.525, 0.75]);
    let mut single = ProgressTracker::new();
    assert!(single.update(&status(0, 1, "80", "100", None)).fraction.is_some());
    let u = single.update(&status(0, 1, "10", "100", None));
    assert!(u.fraction.is_none());
    assert_eq!(u.text, "10/100");
    assert_eq!(single.shown, Fraction { num: 80, den: 100 });
}

#[test]
fn finish_fills_the_bar() {
    let mut t = ProgressTracker::new();
    let u = t.finish(&Ok(()));
    assert_eq!(u.text, "Done!");
    assert_eq!(u.fraction, Some(Fraction { num: 1, den: 1 }));
    let u = t.finish(&Err("engine gone".to_string()));
    assert_eq!(u.text, "engine gone");
}

#[test]
fn fractions_never_exceed_one() {
    assert_eq!(fraction_of(&status(0, 1, "150", "100", None)), Fraction { num: 1, den: 1 });
    assert_eq!(fraction_of(&status(3, 2, "10", "100", Some("x"))), Fraction { num: 1, den: 1 });
    assert_eq!(fraction_of(&status(1, 2, "500", "100", Some("x"))), Fraction { num: 1, den: 1 });
    assert_eq!(fraction_of(&status(0, 2, "150", "100", Some("x"))), Fraction { num: 150, den: 200 });
    assert_eq!(fraction_of(&status(0, 1, "5", "0", None)), Fraction { num: 1, den: 1 });
    assert_eq!(fraction_of(&status(0, 0, "5", "10", Some("x"))), Fraction { num: 1, den: 1 });
    let mut t = ProgressTracker::new();
    let u = t.update(&status(5, 2, "7", "9", Some("x")));
    assert_eq!(u.fraction, Some(Fraction { num: 1, den: 1 }));
    assert!(t.shown.num <= t.shown.den);
}
