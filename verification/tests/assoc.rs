use kynoko_launcher::assoc::{prog_id, register, register_scheme, remove_all, removal, unregister, RegEntry, Removal};
use kynoko_launcher::catalogue::{App, Facade, TileFile};
use kynoko_launcher::settings::{Artefact, Inventory};

fn office() -> App {
    App {
        code: "Office".to_string(),
        url: "https://office.example/".to_string(),
        names: vec![("en".to_string(), "Office".to_string())],
        status: "live".to_string(),
        facades: vec![Facade {
            path: "document".to_string(),
            names: Vec::new(),
            files: vec![
                TileFile { ext: "docx".to_string(), mime: None, primary: true },
                TileFile { ext: "odt".to_string(), mime: None, primary: false },
            ],
            listed: true,
        }],
    }
}

fn text(e: &RegEntry) -> String {
    match e {
        RegEntry::Key { path } => format!("key {path}"),
        RegEntry::Text { path, name, value } => format!("{path} [{name}] = {value}"),
        RegEntry::Marker { path, name } => format!("{path} [{name}] (none)"),
    }
}

#[test]
fn classes() {
    assert_eq!(prog_id(&office(), "docx"), "Kynoko.Office.docx");
}

#[test]
fn registration_writes_and_records() {
    let mut inventory = Inventory::default();
    let writes = register(&office(), r"C:\K\kynoko.exe", &mut inventory);
    let lines: Vec<String> = writes.iter().map(text).collect();
    assert_eq!(lines.len(), 4 + 2 * 5);
    assert_eq!(lines[0], r"Software\Kynoko\Launcher\Capabilities [ApplicationName] = Kynoko Launcher");
    assert_eq!(lines[3], r"key Software\Kynoko\Launcher\Capabilities\FileAssociations");
    assert_eq!(lines[4], r"Software\Classes\Kynoko.Office.docx [] = Office (DOCX)");
    assert_eq!(lines[5], r#"Software\Classes\Kynoko.Office.docx\DefaultIcon [] = "C:\K\kynoko.exe",0"#);
    assert_eq!(lines[6], r#"Software\Classes\Kynoko.Office.docx\shell\open\command [] = "C:\K\kynoko.exe" open "%1""#);
    assert_eq!(lines[7], r"Software\Classes\.docx\OpenWithProgids [Kynoko.Office.docx] (none)");
    assert_eq!(lines[8], r"Software\Kynoko\Launcher\Capabilities\FileAssociations [.docx] = Kynoko.Office.docx");
    assert_eq!(inventory.artefacts.len(), 2 + 2 * 2);
    // Registering again records nothing new.
    register(&office(), r"C:\K\kynoko.exe", &mut inventory);
    assert_eq!(inventory.artefacts.len(), 6);
    let removals = unregister(&office(), &mut inventory);
    assert_eq!(inventory.artefacts.len(), 2);
    assert!(matches!(&removals[0], Removal::Value { path, name } if path == r"Software\Classes\.docx\OpenWithProgids" && name == "Kynoko.Office.docx"));
    assert!(matches!(&removals[1], Removal::KeyIfEmpty { path } if path == r"Software\Classes\.docx\OpenWithProgids"));
    assert!(matches!(&removals[2], Removal::KeyIfEmpty { path } if path == r"Software\Classes\.docx"));
    assert!(matches!(&removals[3], Removal::KeyTree { path } if path == r"Software\Classes\Kynoko.Office.docx"));
    assert!(matches!(&removals[4], Removal::Value { name, .. } if name == ".docx"));
    assert_eq!(removals.len(), 10);
}

#[test]
fn the_launcher_protocol() {
    let mut inventory = Inventory::default();
    let writes = register_scheme(r"C:\K\k.exe", &mut inventory);
    let lines: Vec<String> = writes.iter().map(text).collect();
    assert_eq!(
        lines,
        [
            r"Software\Classes\kynoko-launcher [] = URL:Kynoko Launcher",
            r"Software\Classes\kynoko-launcher [URL Protocol] = ",
            r#"Software\Classes\kynoko-launcher\DefaultIcon [] = "C:\K\k.exe",0"#,
            r#"Software\Classes\kynoko-launcher\shell\open\command [] = "C:\K\k.exe" "%1""#,
        ]
    );
    register_scheme(r"C:\K\k.exe", &mut inventory);
    assert_eq!(inventory.artefacts.len(), 1);
}

#[test]
fn everything_goes_newest_first() {
    let mut inventory = Inventory::default();
    inventory.record(Artefact::RegistryKey { path: "a".to_string() });
    inventory.record(Artefact::File { path: "b".to_string() });
    inventory.record(Artefact::Dir { path: "c".to_string() });
    let all = remove_all(&mut inventory);
    assert!(inventory.artefacts.is_empty());
    assert!(matches!(&all[0], Artefact::Dir { path } if path == "c"));
    assert!(matches!(&all[2], Artefact::RegistryKey { path } if path == "a"));
    assert!(matches!(removal(&all[1])[..], [Removal::File { .. }]));
    assert!(matches!(removal(&all[0])[..], [Removal::DirIfEmpty { .. }]));
    let other = Artefact::RegistryValue { path: r"Software\RegisteredApplications".to_string(), name: "Kynoko Launcher".to_string() };
    assert!(matches!(removal(&other)[..], [Removal::Value { .. }]));
    let mime = Artefact::MimeDefault { mime: "text/csv".to_string(), desktop: "k".to_string(), previous: None };
    assert!(removal(&mime).is_empty());
}

#[test]
fn associating_then_dissociating_keeps_only_the_launcher_registration() {
    let mut inventory = Inventory::default();
    inventory.record(Artefact::File { path: "C:\\icons\\Office.ico".to_string() });
    register(&office(), r"C:\K\kynoko.exe", &mut inventory);
    assert_eq!(inventory.artefacts.len(), 7);
    unregister(&office(), &mut inventory);
    assert_eq!(inventory.artefacts.len(), 3);
    assert!(matches!(&inventory.artefacts[0], Artefact::File { path } if path == "C:\\icons\\Office.ico"));
    assert!(matches!(&inventory.artefacts[1], Artefact::RegistryKey { path } if path == r"Software\Kynoko\Launcher\Capabilities"));
    assert!(matches!(&inventory.artefacts[2], Artefact::RegistryValue { path, name }
        if path == r"Software\RegisteredApplications" && name == "Kynoko Launcher"));
}

#[test]
fn an_extension_another_app_claims_keeps_its_association() {
    let photo = App {
        code: "Photo".to_string(),
        url: "https://photo.example/".to_string(),
        names: vec![("en".to_string(), "Photo".to_string())],
        status: "live".to_string(),
        facades: vec![Facade {
            path: "edit".to_string(),
            names: Vec::new(),
            files: vec![TileFile { ext: "odt".to_string(), mime: None, primary: false }],
            listed: true,
        }],
    };
    let mut inventory = Inventory::default();
    register(&office(), r"C:\K\kynoko.exe", &mut inventory);
    register(&photo, r"C:\K\kynoko.exe", &mut inventory);
    let removals = unregister(&office(), &mut inventory);
    let names: Vec<String> = removals
        .iter()
        .filter_map(|r| match r {
            Removal::Value { path, name } if path.ends_with("FileAssociations") => Some(name.clone()),
            _ => None,
        })
        .collect();
    assert_eq!(names, [".docx"]);
    // Once the other app goes too, its line goes.
    let last = unregister(&photo, &mut inventory);
    assert!(last.iter().any(|r| matches!(r, Removal::Value { path, name } if path.ends_with("FileAssociations") && name == ".odt")));
}
