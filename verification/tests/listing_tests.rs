use fex::icons::{
    choose_icns, icns_candidates, icon_name_from_output, is_app_bundle, png_data_url,
    system_settings_url, ResourceFile,
};
use fex::text::trim_text;
use fex::listing::{sort_listing, DirEntryInfo};

fn info(name: &str, is_dir: bool) -> DirEntryInfo {
    DirEntryInfo { name: name.to_string(), path: format!("/x/{}", name), is_dir, size: None }
}

#[test]
fn listing_puts_directories_first_then_names_case_insensitively() {
    let out = sort_listing(vec![
        info("zeta.txt", false),
        info("Beta", true),
        info("alpha.txt", false),
        info("alpha", true),
        info("Gamma.txt", false),
    ]);
    let names: Vec<&str> = out.iter().map(|e| e.name.as_str()).collect();
    assert_eq!(names, vec!["alpha", "Beta", "alpha.txt", "Gamma.txt", "zeta.txt"]);
    assert_eq!(out[0].path, "/x/alpha");
}

#[test]
fn listing_sort_is_stable_for_equal_keys() {
    let mut a = info("Readme", false);
    a.size = Some(1);
    let mut b = info("README", false);
    b.size = Some(2);
    let mut c = info("readme", false);
    c.size = Some(3);
    let out = sort_listing(vec![a, info("dir", true), b, c]);
    let sizes: Vec<Option<u64>> = out.iter().map(|e| e.size).collect();
    assert_eq!(sizes, vec![None, Some(1), Some(2), Some(3)]);
}

#[test]
fn empty_listing() {
    assert!(sort_listing(Vec::new()).is_empty());
}

#[test]
fn app_bundles() {
    assert!(is_app_bundle("/Applications/Safari.app"));
    assert!(is_app_bundle(".app"));
    assert!(!is_app_bundle("/Applications/Safari.app/"));
    assert!(!is_app_bundle("app"));
    assert!(!is_app_bundle("/tmp/notes.APP"));
}

#[test]
fn icon_candidates() {
    assert_eq!(icns_candidates("AppIcon"), vec!["AppIcon".to_string(), "AppIcon.icns".to_string()]);
    assert_eq!(icns_candidates("AppIcon.icns"), vec!["AppIcon.icns".to_string()]);
}

fn res(path: &str, is_file: bool, ext: Option<&str>, stem: &str) -> ResourceFile {
    ResourceFile {
        path: path.to_string(),
        is_file,
        extension: ext.map(|e| e.to_string()),
        stem: stem.to_string(),
    }
}

#[test]
fn icon_choice_prefers_icon_named_files() {
    let files = vec![
        res("a.png", true, Some("png"), "a"),
        res("Other.ICNS", true, Some("ICNS"), "Other"),
        res("dir.icns", false, Some("icns"), "dir"),
        res("MyAppIcon.icns", true, Some("icns"), "MyAppIcon"),
    ];
    assert_eq!(choose_icns(&files), Some(3));
}

#[test]
fn icon_choice_falls_back_to_first_icns() {
    let files = vec![
        res("readme", true, None, "readme"),
        res("first.icns", true, Some("Icns"), "first"),
        res("second.icns", true, Some("icns"), "second"),
    ];
    assert_eq!(choose_icns(&files), Some(1));
    assert_eq!(choose_icns(&vec![res("x.png", true, Some("png"), "x")]), None);
}

#[test]
fn data_url_and_settings_url() {
    assert_eq!(png_data_url(b"foo"), "data:image/png;base64,Zm9v");
    assert_eq!(png_data_url(b""), "data:image/png;base64,");
    assert_eq!(
        system_settings_url("security"),
        "x-apple.systempreferences:com.apple.preference.security"
    );
}

#[test]
fn icon_name_is_trimmed_plutil_output() {
    assert_eq!(icon_name_from_output(b"AppIcon\n"), Some("AppIcon".to_string()));
    assert_eq!(icon_name_from_output(b"  Icon File.icns \t\r\n"), Some("Icon File.icns".to_string()));
    assert_eq!(icon_name_from_output(b""), None);
    assert_eq!(icon_name_from_output(b" \n\t "), None);
    assert_eq!(icon_name_from_output(b"Ic\xffon\n"), Some("Ic\u{FFFD}on".to_string()));
}

#[test]
fn trim_text_matches_str_trim() {
    for s in ["", "   ", "a", " a ", "\u{3000}x y\u{2028}", "\n\tname\r\n", "no-space"] {
        assert_eq!(trim_text(s), s.trim());
    }
}
