use tubegrab::updater::{app_update_info, is_newer, parse_ver, ReleaseAsset, UpdateProgress};

#[test]
fn version_compare() {
    assert!(is_newer("v0.3.0", "0.2.0"));
    assert!(is_newer("v0.10.0", "0.9.1"));
    assert!(is_newer("1.0.0", "0.99.99"));
    assert!(is_newer("v0.2.1", "0.2.0"));
    assert!(!is_newer("v0.2.0", "0.2.0"));
    assert!(!is_newer("v0.2.0", "0.3.0"));
    assert!(!is_newer("", "0.1.0"));
}

#[test]
fn parse_ver_strips_prefix_and_suffix() {
    assert_eq!(parse_ver("v0.2.0"), vec![0, 2, 0]);
    assert_eq!(parse_ver("VV1.2"), vec![1, 2]);
    assert_eq!(parse_ver("1.2.3-beta"), vec![1, 2, 3]);
    assert_eq!(parse_ver("1.2-3"), vec![1, 2, 3]);
    assert_eq!(parse_ver("+1.+2"), vec![1, 2]);
    assert_eq!(parse_ver("1..2"), vec![1]);
    assert_eq!(parse_ver(""), Vec::<u64>::new());
    assert_eq!(parse_ver("x1.2"), Vec::<u64>::new());
    assert_eq!(parse_ver("18446744073709551615.1"), vec![u64::MAX, 1]);
    assert_eq!(parse_ver("18446744073709551616.1"), Vec::<u64>::new());
}

#[test]
fn newer_prefix_and_suffix_rules() {
    assert!(is_newer("1.0.1", "1.0"));
    assert!(!is_newer("1.0", "1.0.1"));
    assert!(!is_newer("1.0-beta", "1.0"));
    assert!(is_newer("1.0", ""));
}

#[test]
fn newer_is_irreflexive_and_asymmetric() {
    for v in ["0.1.0", "v2", "1.0-rc1", ""] {
        assert!(!is_newer(v, v));
    }
    let pairs = [("0.3.0", "0.2.9"), ("1.10", "1.9"), ("2", "1.99.99")];
    for (a, b) in pairs {
        assert!(is_newer(a, b));
        assert!(!is_newer(b, a));
    }
    assert!(is_newer("3.0", "2.0") && is_newer("2.0", "1.0") && is_newer("3.0", "1.0"));
}

fn asset(name: Option<&str>, url: Option<&str>) -> ReleaseAsset {
    ReleaseAsset { name: name.map(String::from), download_url: url.map(String::from) }
}

#[test]
fn update_info_picks_first_setup_asset() {
    let assets = vec![
        asset(Some("TubeGrab_0.3.0_aarch64.dmg"), Some("https://x/dmg")),
        asset(Some("TubeGrab_0.3.0_x64-setup.exe"), Some("https://x/setup")),
        asset(Some("TubeGrab_0.3.0_x64-setup.exe"), Some("https://x/other")),
    ];
    let info = app_update_info(
        "0.2.0".to_string(),
        Some("v0.3.0".to_string()),
        Some("notes".to_string()),
        None,
        &assets,
        true,
    );
    assert!(info.available);
    assert_eq!(info.current, "0.2.0");
    assert_eq!(info.latest, "v0.3.0");
    assert_eq!(info.notes, "notes");
    assert_eq!(info.page_url, "https://github.com/AmoseCP/TubeGrab/releases/latest");
    assert_eq!(info.asset_url.as_deref(), Some("https://x/setup"));
    assert!(info.can_auto_install);
}

#[test]
fn update_info_without_asset_or_tag() {
    let assets = vec![asset(Some("TubeGrab_x64-setup.exe"), None), asset(Some("b_x64-setup.exe"), Some("u"))];
    let info = app_update_info("0.2.0".to_string(), None, None, Some("https://page".to_string()), &assets, true);
    assert!(!info.available);
    assert_eq!(info.latest, "");
    assert_eq!(info.notes, "");
    assert_eq!(info.page_url, "https://page");
    assert_eq!(info.asset_url, None);
    assert!(!info.can_auto_install);
    let portable = app_update_info("0.2.0".to_string(), Some("0.9".to_string()), None, None,
        &vec![asset(Some("a_x64-setup.exe"), Some("u"))], false);
    assert!(portable.available);
    assert!(!portable.can_auto_install);
    assert_eq!(portable.asset_url.as_deref(), Some("u"));
}

#[test]
fn progress_reports_on_percent_change() {
    let mut p = UpdateProgress::new(200);
    assert_eq!(p.record_chunk(1), Some((1, 200)));
    assert_eq!(p.record_chunk(1), Some((2, 200)));
    assert_eq!(p.record_chunk(1), None);
    assert_eq!(p.record_chunk(197), Some((200, 200)));
    let mut unknown = UpdateProgress::new(0);
    assert_eq!(unknown.record_chunk(10), Some((10, 0)));
    assert_eq!(unknown.record_chunk(10), None);
}
