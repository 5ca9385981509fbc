use kynoko_launcher::browsers::{
    chromium_profiles, chromium_user_data, engine_of, executable_of, gecko_home, installed, known, parse_local_state, parse_profiles_ini,
    registry_browser, resolve_indirect, sorted_profiles, Browser, Engine, LocalState, Profile,
};

fn browser(id: &str, name: &str) -> Browser {
    Browser {
        id: id.to_string(),
        name: name.to_string(),
        exe: format!("/usr/bin/{id}"),
        engine: Engine::Unknown,
        profiles: Vec::new(),
        command: vec![format!("/usr/bin/{id}")],
    }
}

#[test]
fn browsers_engines() {
    assert_eq!(engine_of(r"C:\Program Files\Mozilla Firefox\firefox.exe"), Engine::Gecko);
    assert_eq!(engine_of(r"C:\Program Files\Firefox Nightly\firefox.exe"), Engine::Gecko);
    assert_eq!(engine_of(r"C:\Program Files (x86)\Microsoft\Edge\Application\msedge.exe"), Engine::Chromium);
    assert_eq!(engine_of("/Applications/Safari.app/Contents/MacOS/Safari"), Engine::Webkit);
    assert_eq!(engine_of("unknown.exe"), Engine::Unknown);
    assert_eq!(engine_of("/usr/bin/google-chrome-stable"), Engine::Chromium);
    assert_eq!(engine_of("/usr/bin/firefox-esr"), Engine::Gecko);
    assert_eq!(engine_of("microsoft-edge-beta"), Engine::Chromium);
    assert_eq!(engine_of("epiphany"), Engine::Webkit);
}

#[test]
fn chromium_data_dirs() {
    let dir = |exe: &str| chromium_user_data(exe, "L").map(|p| p.replace('\\', "/"));
    assert_eq!(dir(r"C:\Program Files\Google\Chrome\Application\chrome.exe").as_deref(), Some("L/Google/Chrome/User Data"));
    assert_eq!(
        dir(r"C:\Users\u\AppData\Local\Google\Chrome SxS\Application\chrome.exe").as_deref(),
        Some("L/Google/Chrome SxS/User Data")
    );
    assert_eq!(dir(r"C:\Program Files (x86)\Microsoft\Edge\Application\msedge.exe").as_deref(), Some("L/Microsoft/Edge/User Data"));
    assert_eq!(dir(r"C:\opera\launcher.exe"), None);
}

#[test]
fn local_state() {
    let state = LocalState {
        last_used: Some("Profile 7".to_string()),
        info_cache: Some(vec![
            ("Profile 6".to_string(), Some("Profil 1".to_string())),
            ("Profile 7".to_string(), Some("Profil 2".to_string())),
        ]),
    };
    let p = parse_local_state(&state);
    assert_eq!(p.len(), 2);
    assert!(p.iter().find(|x| x.id == "Profile 7").unwrap().default);
}

#[test]
fn firefox_profiles() {
    let profiles = "[Profile1]\nName=default-nightly\nIsRelative=1\nPath=Profiles/j3.default-nightly\n[Profile0]\nName=default\nPath=Profiles/15.default\nDefault=1\n";
    let installs = "[308046B0AF4A39CB]\nDefault=Profiles/15.default\n[6F193CCC56814779]\nDefault=Profiles/j3.default-nightly\n";
    let release = parse_profiles_ini(profiles, installs, "Firefox-308046B0AF4A39CB");
    let nightly = parse_profiles_ini(profiles, installs, "Firefox-6F193CCC56814779");
    assert_eq!(release.iter().find(|p| p.default).map(|p| p.name.as_str()), Some("default"));
    assert_eq!(nightly.iter().find(|p| p.default).map(|p| p.name.as_str()), Some("default-nightly"));
    assert_eq!(release.len(), 2);
}

#[test]
fn executables() {
    assert_eq!(executable_of(r#""C:\Program Files\X\x.exe" --flag"#), r"C:\Program Files\X\x.exe");
    assert_eq!(executable_of(r"C:\x.exe --flag"), r"C:\x.exe");
    assert_eq!(resolve_indirect(r"@C:\Program Files\X\x.exe,-100".into()), "x");
}

#[test]
fn local_state_without_last_used_defaults_to_default() {
    let state = LocalState {
        last_used: None,
        info_cache: Some(vec![("Default".to_string(), None), ("Profile 1".to_string(), Some("Work".to_string()))]),
    };
    let p = parse_local_state(&state);
    assert_eq!(p[0].id, "Default");
    assert_eq!(p[0].name, "Default");
    assert!(p[0].default);
    assert_eq!(p[1].name, "Work");
    assert!(!p[1].default);
    assert!(parse_local_state(&LocalState { last_used: None, info_cache: None }).is_empty());
}

#[test]
fn gecko_homes() {
    assert_eq!(gecko_home(r"C:\Program Files\Mozilla Firefox\firefox.exe"), Some(r"Mozilla\Firefox"));
    assert_eq!(gecko_home("LibreWolf.exe"), Some("librewolf"));
    assert_eq!(gecko_home(r"C:\x\chrome.exe"), None);
}

#[test]
fn installed_keeps_the_first_of_each_id_sorted_by_name() {
    let found = vec![browser("b", "beta"), browser("a", "Zeta"), browser("b", "Other"), browser("c", "alpha")];
    let out = installed(found);
    let names: Vec<&str> = out.iter().map(|b| b.name.as_str()).collect();
    assert_eq!(names, ["alpha", "beta", "Zeta"]);
    assert!(known(&out, "a"));
    assert!(!known(&out, "d"));
}

#[test]
fn registry_browsers_name_and_program() {
    let b = registry_browser(
        "FIREFOX.EXE".to_string(),
        None,
        Some("Mozilla Firefox".to_string()),
        r#""C:\Program Files\Mozilla Firefox\firefox.exe" -osint -url "%1""#,
    );
    assert_eq!(b.name, "Mozilla Firefox");
    assert_eq!(b.exe, r"C:\Program Files\Mozilla Firefox\firefox.exe");
    assert_eq!(b.engine, Engine::Gecko);
    assert_eq!(b.command, [r"C:\Program Files\Mozilla Firefox\firefox.exe"]);
    let c = registry_browser("Chromium".to_string(), None, None, r"C:\c\chrome.exe");
    assert_eq!(c.name, "Chromium");
    assert_eq!(c.engine, Engine::Chromium);
}

#[test]
fn profiles_sorted_by_lower_case_name() {
    let p = |n: &str| Profile { id: n.to_string(), name: n.to_string(), default: false };
    let sorted = sorted_profiles(vec![p("b"), p("A"), p("a"), p("C")]);
    let names: Vec<&str> = sorted.iter().map(|x| x.name.as_str()).collect();
    assert_eq!(names, ["A", "a", "b", "C"]);
}

#[test]
fn profiles_read_from_the_local_state_text() {
    let text = r#"{"profile":{"last_used":"Profile 7","info_cache":{"Profile 7":{"name":"Travail"},"Default":{"name":"Perso"},"Profile 9":{}}},"other":1}"#;
    let p = chromium_profiles(text);
    let got: Vec<(&str, &str, bool)> = p.iter().map(|x| (x.id.as_str(), x.name.as_str(), x.default)).collect();
    assert_eq!(got, [("Default", "Perso", false), ("Profile 9", "Profile 9", false), ("Profile 7", "Travail", true)]);
    assert!(chromium_profiles("not json").is_empty());
    assert!(chromium_profiles(r#"{"profile":{}}"#).is_empty());
}
