use kynoko_launcher::catalogue::App;
use kynoko_launcher::settings::{Artefact, Inventory, Settings, StrMap};

fn app(code: &str) -> App {
    App { code: code.to_string(), url: format!("https://{code}.example"), names: Vec::new(), status: "live".to_string(), facades: Vec::new() }
}

#[test]
fn string_maps() {
    let mut m = StrMap::new();
    assert_eq!(m.get("a"), None);
    m.insert("a".to_string(), "1".to_string());
    m.insert("b".to_string(), "2".to_string());
    m.insert("a".to_string(), "3".to_string());
    assert_eq!(m.get("a").as_deref(), Some("3"));
    assert!(m.contains_key("b"));
    m.remove("a");
    assert_eq!(m.get("a"), None);
    assert_eq!(m.get("b").as_deref(), Some("2"));
}

#[test]
fn browsers_and_profiles_follow_the_default() {
    let mut s = Settings::default();
    assert_eq!(s.browser_for("Office"), None);
    s.set_default_browser(Some("firefox".to_string()));
    s.set_default_profile(Some("default".to_string()));
    assert_eq!(s.browser_for("Office").as_deref(), Some("firefox"));
    assert_eq!(s.profile_for("Office").as_deref(), Some("default"));
    s.set_app_browser("Office".to_string(), Some("chrome".to_string()));
    assert_eq!(s.browser_for("Office").as_deref(), Some("chrome"));
    assert_eq!(s.profile_for("Office"), None);
    s.set_app_profile("Office".to_string(), Some("Profile 1".to_string()));
    assert_eq!(s.profile_for("Office").as_deref(), Some("Profile 1"));
    // Changing the default moves the others, on the new browser's own default.
    s.set_default_browser(Some("edge".to_string()));
    assert_eq!(s.browser_for("Photo").as_deref(), Some("edge"));
    assert_eq!(s.profile_for("Photo"), None);
    assert_eq!(s.browser_for("Office").as_deref(), Some("chrome"));
    s.set_app_browser("Office".to_string(), None);
    assert_eq!(s.browser_for("Office").as_deref(), Some("edge"));
    assert_eq!(s.profile_for("Office"), None);
}

#[test]
fn choices_of_apps() {
    let mut s = Settings::default();
    s.set_associated("Office".to_string(), true);
    s.set_associated("Office".to_string(), true);
    s.set_associated("Photo".to_string(), true);
    assert_eq!(s.associated_apps, ["Office", "Photo"]);
    s.set_associated("Office".to_string(), false);
    assert_eq!(s.associated_apps, ["Photo"]);
    s.set_shortcuts("A".to_string(), true);
    s.set_shortcuts("B".to_string(), true);
    s.set_shortcuts("A".to_string(), true);
    assert_eq!(s.shortcut_apps, ["B", "A"]);
    assert!(s.set_ui_lang("fr"));
    assert!(!s.set_ui_lang("fr"));
    assert_eq!(s.url_of(&app("x")), "https://x.example");
    s.app_urls.insert("x".to_string(), "http://localhost:4200".to_string());
    assert_eq!(s.url_of(&app("x")), "http://localhost:4200");
}

#[test]
fn the_inventory_records_once_and_forgets_all() {
    let mut inv = Inventory::default();
    let f = || Artefact::File { path: "/x".to_string() };
    inv.record(f());
    inv.record(f());
    assert_eq!(inv.artefacts.len(), 1);
    assert!(inv.contains(&f()));
    inv.record(Artefact::Dir { path: "/d".to_string() });
    inv.forget(&f());
    assert!(!inv.contains(&f()));
    assert!(inv.contains(&Artefact::Dir { path: "/d".to_string() }));
    assert!(!Artefact::Dir { path: "/d".to_string() }.same(&Artefact::Tree { path: "/d".to_string() }));
}
