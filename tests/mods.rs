use atlas::mods::check_required_mods;

#[test]
fn unreachable_game_assumes_recorder() {
    assert_eq!(check_required_mods(&None), (false, None, true));
}

#[test]
fn all_mods_present() {
    let mods = vec![
        "CelesteTAS".to_string(),
        "ConsistencyTracker".to_string(),
        "TASRecorder".to_string(),
    ];
    assert_eq!(check_required_mods(&Some(mods)), (true, None, true));
}

#[test]
fn missing_mods_are_listed() {
    let mods = vec!["Other".to_string()];
    assert_eq!(
        check_required_mods(&Some(mods)),
        (
            true,
            Some(
                "Mod `CelesteTAS` is not installed. \nMod `ConsistencyTracker` is not installed. \n"
                    .to_string()
            ),
            false
        )
    );
    let mods = vec!["CelesteTAS".to_string()];
    assert_eq!(
        check_required_mods(&Some(mods)),
        (
            true,
            Some("Mod `ConsistencyTracker` is not installed. \n".to_string()),
            false
        )
    );
}
