use kynoko_launcher::browsers::{Browser, Engine};
use kynoko_launcher::catalogue::{App, Catalogue, Facade, TileFile};
use kynoko_launcher::launcher::{
    app_for_file, app_param, app_views, catalogue_first_delay, extension_of, first_delay, idle, launch_command,
    group_by_app, launch_target, launch_url, manual_check_due, open_url, open_url_many, origin_of, parse, reconcile,
    Command, Platform, Step,
};
use kynoko_launcher::settings::Settings;

fn catalogue(apps: Vec<App>) -> Catalogue {
    Catalogue { v: 1, generated_at: "d".to_string(), apps }
}

fn app(code: &str, exts: &[&str]) -> App {
    App {
        code: code.to_string(),
        url: format!("https://{}.example/", code.to_lowercase()),
        names: vec![("en".to_string(), code.to_string())],
        status: "live".to_string(),
        facades: vec![Facade {
            path: "main".to_string(),
            names: Vec::new(),
            files: exts.iter().map(|e| TileFile { ext: e.to_string(), mime: None, primary: false }).collect(),
            listed: true,
        }],
    }
}

fn browser(engine: Engine, command: Vec<&str>) -> Browser {
    Browser {
        id: "b".to_string(),
        name: "B".to_string(),
        exe: "/usr/bin/b".to_string(),
        engine,
        profiles: Vec::new(),
        command: command.into_iter().map(String::from).collect(),
    }
}

#[test]
fn origins() {
    assert_eq!(origin_of("https://office.kynoko.com/"), "https://office.kynoko.com");
    assert_eq!(origin_of("https://a.example:8443/x/y"), "https://a.example:8443");
    assert_eq!(origin_of("https://a.example"), "https://a.example");
}

#[test]
fn deep_links() {
    assert_eq!(app_param("kynoko-launcher://settings?app=Office"), Some("Office".into()));
    assert_eq!(app_param("kynoko-launcher://settings?x=1&app=PhotoStudio"), Some("PhotoStudio".into()));
    assert_eq!(app_param("kynoko-launcher://settings?app=../../evil"), None);
    assert_eq!(app_param("kynoko-launcher://settings"), None);
    assert!(matches!(parse(&["kynoko-launcher://settings?app=Office".into()]), Command::Window(Some(_))));
}

#[test]
fn roles() {
    assert!(matches!(parse(&[]), Command::Window(None)));
    match parse(&["open".to_string(), "a.docx".to_string(), "b.csv".to_string()]) {
        Command::Open(files) => assert_eq!(files, ["a.docx", "b.csv"]),
        _ => panic!("open"),
    }
    match parse(&["launch".to_string(), "Office/sheet".to_string()]) {
        Command::Launch(t) => assert_eq!(t, "Office/sheet"),
        _ => panic!("launch"),
    }
    assert!(matches!(parse(&["launch".to_string()]), Command::Launch(t) if t.is_empty()));
    assert!(matches!(parse(&["cleanup".to_string()]), Command::Cleanup));
    assert!(matches!(parse(&["whatever".to_string()]), Command::Window(None)));
    assert_eq!(app_param("kynoko-launcher://settings?app="), None);
    assert_eq!(app_param(&format!("kynoko-launcher://settings?app={}", "A".repeat(41))), None);
}

#[test]
fn addresses() {
    assert_eq!(
        open_url("https://office.example/", 51234, "abc"),
        "https://office.example/open#kynokoBridge=127.0.0.1:51234/abc&kynokoLauncher=1"
    );
    assert_eq!(launch_url("https://office.example//", "sheet"), "https://office.example/sheet#kynokoLauncher=1");
    assert_eq!(launch_url("https://office.example", ""), "https://office.example/#kynokoLauncher=1");
    assert_eq!(launch_target("Office/sheet/x"), ("Office".to_string(), "sheet/x".to_string()));
    assert_eq!(launch_target("Office"), ("Office".to_string(), String::new()));
}

#[test]
fn extensions_of_names() {
    assert_eq!(extension_of("report.DOCX").as_deref(), Some("DOCX"));
    assert_eq!(extension_of("archive.tar.gz").as_deref(), Some("gz"));
    assert_eq!(extension_of(".bashrc"), None);
    assert_eq!(extension_of("README"), None);
    assert_eq!(extension_of(".."), None);
    assert_eq!(extension_of("x.").as_deref(), Some(""));
}

#[test]
fn launch_commands() {
    let chrome = browser(Engine::Chromium, vec!["/usr/bin/chrome"]);
    assert_eq!(
        launch_command(Platform::Linux, "https://a/", Some(&chrome), Some("Profile 1")),
        ["/usr/bin/chrome", "--profile-directory=Profile 1", "--app=https://a/"]
    );
    assert_eq!(launch_command(Platform::Linux, "https://a/", Some(&chrome), None), ["/usr/bin/chrome", "--app=https://a/"]);
    let firefox = browser(Engine::Gecko, vec!["flatpak", "run", "org.mozilla.firefox"]);
    assert_eq!(
        launch_command(Platform::Linux, "https://a/", Some(&firefox), Some("work")),
        ["flatpak", "run", "org.mozilla.firefox", "-P", "work", "-new-window", "https://a/"]
    );
    let safari = browser(Engine::Webkit, vec!["open", "-a", "/Applications/Safari.app"]);
    assert_eq!(
        launch_command(Platform::MacOs, "https://a/", Some(&safari), Some("ignored")),
        ["open", "-a", "/Applications/Safari.app", "https://a/"]
    );
    let bare = browser(Engine::Unknown, Vec::new());
    assert_eq!(launch_command(Platform::Windows, "https://a/", Some(&bare), None), ["/usr/bin/b", "https://a/"]);
    assert_eq!(launch_command(Platform::Windows, "https://a/", None, None), ["cmd", "/C", "start", "", "https://a/"]);
    assert_eq!(launch_command(Platform::MacOs, "https://a/", None, None), ["open", "https://a/"]);
    assert_eq!(launch_command(Platform::Linux, "https://a/", None, None), ["xdg-open", "https://a/"]);
}

#[test]
fn files_find_their_app() {
    let c = catalogue(vec![app("Office", &["docx", "csv"]), app("Photo", &["jpg"])]);
    assert_eq!(app_for_file(&c, "Report.DOCX", &[]).unwrap().code, "Office");
    assert_eq!(app_for_file(&c, "a.jpg", &["Office".to_string()]).unwrap().code, "Photo");
    assert_eq!(app_for_file(&c, "a.exe", &[]).unwrap_err(), "no Kynoko app opens .exe");
    assert_eq!(app_for_file(&c, "README", &[]).unwrap_err(), "no Kynoko app opens .");
}

#[test]
fn reconciling_a_new_catalogue() {
    let old = catalogue(vec![app("Office", &["docx"]), app("Photo", &["jpg"]), app("Gone", &["x"])]);
    let new = catalogue(vec![app("Office", &["docx", "odt"]), app("Photo", &["jpg"])]);
    let mut settings = Settings::default();
    settings.associated_apps = vec!["Office".to_string(), "Photo".to_string(), "Gone".to_string(), "Other".to_string()];
    settings.shortcut_apps = vec!["Photo".to_string(), "Gone".to_string()];
    let steps = reconcile(&old, &new, &mut settings);
    let names: Vec<String> = steps
        .iter()
        .map(|s| match s {
            Step::Unassociate(c) => format!("-assoc {c}"),
            Step::Associate(c) => format!("+assoc {c}"),
            Step::RemoveShortcuts(c) => format!("-links {c}"),
            Step::CreateShortcuts(c) => format!("+links {c}"),
        })
        .collect();
    assert_eq!(names, ["-assoc Office", "+assoc Office", "-assoc Gone", "-links Gone"]);
    assert_eq!(settings.associated_apps, ["Office", "Photo", "Other"]);
    assert_eq!(settings.shortcut_apps, ["Photo"]);
}

#[test]
fn window_views() {
    let c = catalogue(vec![app("Office", &["docx", "csv", "docx"]), app("Photo", &["jpg"])]);
    let mut settings = Settings::default();
    settings.associated_apps = vec!["Photo".to_string()];
    settings.set_app_browser("Office".to_string(), Some("firefox".to_string()));
    settings.set_app_profile("Office".to_string(), Some("work".to_string()));
    let views = app_views(&c, &settings, "fr");
    assert_eq!(views.len(), 2);
    assert_eq!(views[0].name, "Office");
    assert_eq!(views[0].extensions, ["docx", "csv"]);
    assert!(!views[0].associated && views[1].associated);
    assert_eq!(views[0].browser.as_deref(), Some("firefox"));
    assert_eq!(views[0].profile.as_deref(), Some("work"));
    assert_eq!(views[1].browser, None);
}

#[test]
fn agent_and_checks() {
    assert!(idle(false, 0, None, 10));
    assert!(!idle(true, 0, None, 10));
    assert!(!idle(false, 1, None, 10));
    assert!(!idle(false, 0, Some(1000), 120_999));
    assert!(idle(false, 0, Some(1000), 121_000));
    assert!(!idle(false, 0, Some(5000), 10));
    assert!(manual_check_due(None, 0));
    assert!(!manual_check_due(Some(100), 159));
    assert!(manual_check_due(Some(100), 160));
    assert_eq!(first_delay(true, (200, 200)), 5);
    assert_eq!(first_delay(false, (0, 0)), 30);
    assert_eq!(first_delay(false, (0x3a, 0x02)), 30 + 570 % 570);
    assert_eq!(first_delay(false, (0xff, 0xff)), 30 + 65535 % 570);
    assert_eq!(catalogue_first_delay(true), 5);
    let d = catalogue_first_delay(false);
    assert!((30..600).contains(&d));
}

#[test]
fn the_same_content_changes_nothing() {
    let old = catalogue(vec![app("Office", &["docx"]), app("Photo", &["jpg"])]);
    let mut new = old.clone();
    new.generated_at = "another date".to_string();
    new.apps[0].names.reverse();
    let mut settings = Settings::default();
    settings.associated_apps = vec!["Office".to_string(), "Photo".to_string()];
    settings.shortcut_apps = vec!["Photo".to_string()];
    let steps = reconcile(&old, &new, &mut settings);
    assert!(steps.is_empty());
    assert_eq!(settings.associated_apps, ["Office", "Photo"]);
    assert_eq!(settings.shortcut_apps, ["Photo"]);
}

#[test]
fn a_retired_app_is_taken_away() {
    let old = catalogue(vec![app("Office", &["docx"]), app("Photo", &["jpg"])]);
    let mut new = old.clone();
    new.apps[0].status = "retired".to_string();
    let mut settings = Settings::default();
    settings.associated_apps = vec!["Office".to_string(), "Photo".to_string()];
    settings.shortcut_apps = vec!["Office".to_string()];
    let steps = reconcile(&old, &new, &mut settings);
    assert_eq!(steps.len(), 2);
    assert!(matches!(&steps[0], Step::Unassociate(c) if c == "Office"));
    assert!(matches!(&steps[1], Step::RemoveShortcuts(c) if c == "Office"));
    assert_eq!(settings.associated_apps, ["Photo"]);
    assert!(settings.shortcut_apps.is_empty());
}

#[test]
fn files_of_one_app_open_together() {
    let apps: Vec<String> = ["Office", "Photo", "Office"].iter().map(|s| s.to_string()).collect();
    let groups = group_by_app(&apps);
    assert_eq!(groups, vec![("Office".to_string(), vec![0, 2]), ("Photo".to_string(), vec![1])]);
    let tokens = vec!["t1".to_string(), "t2".to_string()];
    assert_eq!(
        open_url_many("https://office.example/", 5000, &tokens),
        "https://office.example/open#kynokoBridge=127.0.0.1:5000/t1,t2&kynokoLauncher=1"
    );
    assert_eq!(open_url_many("https://o.example", 1, &tokens[..1].to_vec()), open_url("https://o.example", 1, "t1"));
}
