use kynoko_launcher::browsers::Engine;
use kynoko_launcher::catalogue::{App, Facade, TileFile};
use kynoko_launcher::linux::{
    app_dirs, create_shortcut, desktop_browser, first_entries, flatpak_id, open_entry, profiles_file, register, register_scheme,
    package_name, restore_default, shortcut_paths, types, unregister, URL_ENTRY,
};
use kynoko_launcher::settings::{Artefact, Inventory, Settings};
use kynoko_launcher::xdg::{defaults_group, mimeapps_get};

fn office() -> App {
    App {
        code: "Office".to_string(),
        url: "https://office.example/".to_string(),
        names: vec![("en".to_string(), "Office".to_string()), ("fr".to_string(), "Bureau".to_string())],
        status: "live".to_string(),
        facades: vec![
            Facade {
                path: "document".to_string(),
                names: vec![("en".to_string(), "Document".to_string())],
                files: vec![
                    TileFile { ext: "docx".to_string(), mime: Some("application/vnd.docx".to_string()), primary: true },
                    TileFile { ext: "kdoc".to_string(), mime: None, primary: false },
                ],
                listed: true,
            },
            Facade {
                path: "tools/sheet".to_string(),
                names: Vec::new(),
                files: vec![TileFile { ext: "docx".to_string(), mime: Some("other/docx".to_string()), primary: false }],
                listed: true,
            },
            Facade { path: "draft".to_string(), names: Vec::new(), files: Vec::new(), listed: false },
        ],
    }
}

#[test]
fn entries_and_types() {
    assert_eq!(open_entry(&office()), "kynoko-launcher-open-Office.desktop");
    assert_eq!(
        types(&office()),
        vec![
            ("application/vnd.docx".to_string(), "docx".to_string()),
            ("application/x-kynoko-kdoc".to_string(), "kdoc".to_string()),
        ]
    );
}

#[test]
fn registering_an_app() {
    let mut settings = Settings::default();
    settings.set_ui_lang("fr");
    let mut inventory = Inventory::default();
    let list = "[Default Applications]\napplication/vnd.docx=writer.desktop;\n";
    let r = register(&office(), &settings, "/opt/k/kynoko", list, "/d/pkg.xml", "/a/entry.desktop", &mut inventory);
    assert!(r.package.contains("<glob pattern=\"*.kdoc\"/>"));
    assert_eq!(
        r.entry,
        "[Desktop Entry]\nType=Application\nName=Bureau (Kynoko Launcher)\nExec=/opt/k/kynoko open %F\nMimeType=application/vnd.docx;application/x-kynoko-kdoc;\nNoDisplay=true\n"
    );
    let entry = open_entry(&office());
    assert_eq!(mimeapps_get(&r.list, defaults_group(), "application/vnd.docx").as_deref(), Some(entry.as_str()));
    assert_eq!(mimeapps_get(&r.list, defaults_group(), "application/x-kynoko-kdoc").as_deref(), Some(entry.as_str()));
    assert_eq!(mimeapps_get(&r.list, "[Added Associations]", "application/vnd.docx").as_deref(), Some(entry.as_str()));
    assert_eq!(inventory.artefacts.len(), 4);
    assert!(matches!(&inventory.artefacts[2], Artefact::MimeDefault { mime, previous: Some(p), .. }
        if mime == "application/vnd.docx" && p == "writer.desktop"));
    assert!(matches!(&inventory.artefacts[3], Artefact::MimeDefault { previous: None, .. }));
    // Registering again records nothing new.
    let again = register(&office(), &settings, "/opt/k/kynoko", &r.list, "/d/pkg.xml", "/a/entry.desktop", &mut inventory);
    assert_eq!(inventory.artefacts.len(), 4);
    assert_eq!(again.list, r.list);
    // Unregistering takes back its defaults and files.
    inventory.record(Artefact::File { path: "/elsewhere".to_string() });
    let gone = unregister(&office(), &mut inventory);
    assert_eq!(gone.len(), 2);
    assert_eq!(inventory.artefacts.len(), 3);
}

#[test]
fn unregister_matches_the_app_files() {
    let mut inventory = Inventory::default();
    inventory.record(Artefact::File { path: "/a/kynoko-launcher-open-Office.desktop".to_string() });
    inventory.record(Artefact::File { path: "/m/kynoko-launcher-Office.xml".to_string() });
    inventory.record(Artefact::File { path: "/a/kynoko-launcher-open-Photo.desktop".to_string() });
    let gone = unregister(&office(), &mut inventory);
    assert_eq!(gone.len(), 2);
    assert_eq!(inventory.artefacts.len(), 1);
}

#[test]
fn restoring_a_default() {
    let list = "[Default Applications]\ntext/csv=k.desktop;\n[Added Associations]\ntext/csv=k.desktop;calc.desktop;\n";
    let next = restore_default(list, "text/csv", "k.desktop", Some("calc.desktop")).unwrap();
    assert_eq!(next, "[Default Applications]\ntext/csv=calc.desktop;\n[Added Associations]\ntext/csv=calc.desktop;\n");
    // The user chose another default since: only "Open with" changes.
    let theirs = "[Default Applications]\ntext/csv=mine.desktop;\n";
    assert_eq!(restore_default(theirs, "text/csv", "k.desktop", Some("calc.desktop")), None);
    let none = restore_default(list, "text/csv", "k.desktop", None).unwrap();
    assert_eq!(mimeapps_get(&none, defaults_group(), "text/csv"), None);
}

#[test]
fn the_launcher_address() {
    let mut inventory = Inventory::default();
    let (text, list) = register_scheme("/opt/My K/kynoko", "", "/a/url.desktop", &mut inventory);
    assert!(text.contains("Exec=\"/opt/My K/kynoko\" %u\n"));
    assert!(text.contains("MimeType=x-scheme-handler/kynoko-launcher;\n"));
    let list = list.unwrap();
    assert_eq!(mimeapps_get(&list, defaults_group(), "x-scheme-handler/kynoko-launcher").as_deref(), Some(URL_ENTRY));
    assert_eq!(inventory.artefacts.len(), 2);
    let (_, again) = register_scheme("/opt/My K/kynoko", &list, "/a/url.desktop", &mut inventory);
    assert_eq!(again, None);
    assert_eq!(inventory.artefacts.len(), 2);
}

#[test]
fn app_shortcut_entry() {
    let mut inventory = Inventory::default();
    let text = create_shortcut(&office(), "en", "/opt/k/kynoko", Some("/i/office.png"), "/a/kynoko-Office.desktop", &mut inventory);
    assert_eq!(
        text,
        "[Desktop Entry]\nType=Application\nName=Office\nExec=/opt/k/kynoko launch Office\nCategories=Office;\nIcon=/i/office.png\nActions=document;tools-sheet;\n\n[Desktop Action document]\nName=Document\nExec=/opt/k/kynoko launch Office/document\n\n[Desktop Action tools-sheet]\nName=tools/sheet\nExec=/opt/k/kynoko launch Office/tools/sheet\n"
    );
    assert_eq!(inventory.artefacts.len(), 1);
    assert_eq!(shortcut_paths(&office(), "/home/u/.local/share/applications"), ["/home/u/.local/share/applications/kynoko-Office.desktop"]);
}

#[test]
fn browsers_from_desktop_files() {
    let firefox = "[Desktop Entry]\nName=Firefox\nType=Application\nExec=/usr/lib/firefox/firefox %u\nMimeType=text/html;x-scheme-handler/https;\n";
    let b = desktop_browser("firefox.desktop", firefox).unwrap();
    assert_eq!(b.name, "Firefox");
    assert_eq!(b.exe, "/usr/lib/firefox/firefox");
    assert_eq!(b.engine, Engine::Gecko);
    assert!(desktop_browser("firefox.txt", firefox).is_none());
    assert!(desktop_browser("kynoko-x.desktop", firefox).is_none());
    let hidden = format!("{firefox}NoDisplay=true\n");
    assert!(desktop_browser("f.desktop", &hidden).is_none());
    let viewer = "[Desktop Entry]\nName=Viewer\nExec=viewer %u\nMimeType=text/html;\n";
    assert!(desktop_browser("v.desktop", viewer).is_none());
    let flat = "[Desktop Entry]\nExec=/usr/bin/flatpak run --branch=stable org.chromium.Chromium @@u %U @@\nMimeType=x-scheme-handler/https\n";
    let c = desktop_browser("org.chromium.Chromium.desktop", flat).unwrap();
    assert_eq!(c.name, "chromium");
    assert_eq!(c.engine, Engine::Chromium);
    assert_eq!(flatpak_id(&c.command).as_deref(), Some("org.chromium.Chromium"));
    assert_eq!(flatpak_id(&b.command), None);
}

#[test]
fn where_profiles_are_listed() {
    assert_eq!(profiles_file(Engine::Chromium, "google-chrome-stable", None, "/h").as_deref(), Some("/h/.config/google-chrome/Local State"));
    assert_eq!(
        profiles_file(Engine::Chromium, "chromium", Some("org.chromium.Chromium"), "/h").as_deref(),
        Some("/h/.var/app/org.chromium.Chromium/config/chromium/Local State")
    );
    assert_eq!(profiles_file(Engine::Gecko, "firefox-esr", None, "/h").as_deref(), Some("/h/.mozilla/firefox/profiles.ini"));
    assert_eq!(profiles_file(Engine::Gecko, "icecat", None, "/h"), None);
    assert_eq!(profiles_file(Engine::Webkit, "epiphany", None, "/h"), None);
}

#[test]
fn desktop_file_directories() {
    assert_eq!(
        app_dirs("/h/.local/share/applications", Some("/a:/b/"), "/h"),
        [
            "/h/.local/share/applications",
            "/a/applications",
            "/b/applications",
            "/h/.local/share/flatpak/exports/share/applications",
            "/var/lib/flatpak/exports/share/applications",
            "/var/lib/snapd/desktop/applications",
        ]
    );
    assert_eq!(app_dirs("x", Some(""), "/h")[1], "/usr/local/share/applications");
    assert_eq!(app_dirs("x", None, "/h")[2], "/usr/share/applications");
}

fn same_inventory(a: &Inventory, b: &Inventory) -> bool {
    a.artefacts.len() == b.artefacts.len() && a.artefacts.iter().zip(&b.artefacts).all(|(x, y)| x.same(y))
}

#[test]
fn associating_then_dissociating_leaves_the_inventory_as_it_was() {
    let mut inventory = Inventory::default();
    inventory.record(Artefact::File { path: "/a/kynoko-launcher-open-Photo.desktop".to_string() });
    inventory.record(Artefact::Dir { path: "/s/Kynoko".to_string() });
    let mut before = Inventory::default();
    for a in &inventory.artefacts {
        before.record(match a {
            Artefact::File { path } => Artefact::File { path: path.clone() },
            Artefact::Dir { path } => Artefact::Dir { path: path.clone() },
            _ => unreachable!(),
        });
    }
    let list = "[Default Applications]\napplication/vnd.docx=writer.desktop;\n";
    let entry = format!("/a/{}", open_entry(&office()));
    let package = format!("/m/{}", package_name(&office()));
    register(&office(), &Settings::default(), "/opt/k/kynoko", list, &package, &entry, &mut inventory);
    assert_eq!(inventory.artefacts.len(), 6);
    unregister(&office(), &mut inventory);
    assert!(same_inventory(&inventory, &before));
}

#[test]
fn a_replaced_default_comes_back() {
    let list = "[Default Applications]\napplication/vnd.docx=writer.desktop;other.desktop;\n";
    let mut inventory = Inventory::default();
    let r = register(&office(), &Settings::default(), "/k", list, "/m/p.xml", "/a/e.desktop", &mut inventory);
    let entry = open_entry(&office());
    let back = restore_default(&r.list, "application/vnd.docx", &entry, Some("writer.desktop")).unwrap();
    assert_eq!(mimeapps_get(&back, defaults_group(), "application/vnd.docx").as_deref(), Some("writer.desktop"));
    // A type that had no default has none again.
    let none = restore_default(&r.list, "application/x-kynoko-kdoc", &entry, None).unwrap();
    assert_eq!(mimeapps_get(&none, defaults_group(), "application/x-kynoko-kdoc"), None);
}

#[test]
fn package_names() {
    assert_eq!(package_name(&office()), "kynoko-launcher-Office.xml");
}

#[test]
fn a_hidden_user_entry_hides_the_system_one() {
    let firefox = "[Desktop Entry]\nName=Firefox\nType=Application\nExec=firefox %u\nMimeType=x-scheme-handler/https;\n";
    let hidden = format!("{firefox}Hidden=true\n");
    let found = vec![
        ("firefox.desktop".to_string(), hidden),
        ("chromium.desktop".to_string(), firefox.replace("firefox", "chromium")),
        ("firefox.desktop".to_string(), firefox.to_string()),
    ];
    let first = first_entries(found);
    assert_eq!(first.len(), 2);
    assert_eq!(first[0].0, "firefox.desktop");
    assert!(desktop_browser(&first[0].0, &first[0].1).is_none());
    assert_eq!(first[1].0, "chromium.desktop");
}

#[test]
fn restoring_a_default_keeps_the_other_types() {
    let list = "[Default Applications]\ntext/csv=k.desktop;\ntext/html=firefox.desktop;\n[Added Associations]\ntext/csv=k.desktop;\ntext/plain=gedit.desktop;\n";
    let next = restore_default(list, "text/csv", "k.desktop", Some("calc.desktop")).unwrap();
    assert_eq!(mimeapps_get(&next, defaults_group(), "text/html").as_deref(), Some("firefox.desktop"));
    assert_eq!(mimeapps_get(&next, "[Added Associations]", "text/plain").as_deref(), Some("gedit.desktop"));
    assert_eq!(mimeapps_get(&next, defaults_group(), "text/csv").as_deref(), Some("calc.desktop"));
    assert_eq!(mimeapps_get(&next, "[Added Associations]", "text/csv"), None);
}

#[test]
fn a_default_the_user_chose_since_is_kept() {
    let list = "[Default Applications]\ntext/csv=mine.desktop;\n[Added Associations]\ntext/csv=k.desktop;calc.desktop;\n";
    let next = restore_default(list, "text/csv", "k.desktop", Some("calc.desktop")).unwrap();
    assert_eq!(next, "[Default Applications]\ntext/csv=mine.desktop;\n[Added Associations]\ntext/csv=calc.desktop;\n");
}
