use image::ImageEncoder;
use kynoko_launcher::catalogue::{App, Facade};
use kynoko_launcher::settings::{Artefact, Inventory, Settings};
use kynoko_launcher::shortcuts::{app_manifest, best_icon, create, file_name, png_to_ico, remove, resolve, ManifestIcon};

fn png(w: u32, h: u32) -> Vec<u8> {
    let mut png = Vec::new();
    let img = image::RgbaImage::from_pixel(w, h, image::Rgba([99, 102, 241, 255]));
    image::codecs::png::PngEncoder::new(&mut png).write_image(img.as_raw(), w, h, image::ExtendedColorType::Rgba8).unwrap();
    png
}

fn icon(src: Option<&str>, sizes: Option<&str>, kind: Option<&str>, purpose: Option<&str>) -> ManifestIcon {
    ManifestIcon {
        src: src.map(String::from),
        sizes: sizes.map(String::from),
        kind: kind.map(String::from),
        purpose: purpose.map(String::from),
    }
}

fn office() -> App {
    App {
        code: "Office".to_string(),
        url: "https://office.example/".to_string(),
        names: vec![("en".to_string(), "Office: Docs".to_string()), ("fr".to_string(), "Bureau".to_string())],
        status: "live".to_string(),
        facades: vec![
            Facade {
                path: "tools/crop".to_string(),
                names: vec![("en".to_string(), "Crop & frame".to_string())],
                files: Vec::new(),
                listed: true,
            },
            Facade { path: "draft".to_string(), names: Vec::new(), files: Vec::new(), listed: false },
            Facade { path: "sheet".to_string(), names: Vec::new(), files: Vec::new(), listed: true },
        ],
    }
}

#[test]
fn names() {
    assert_eq!(file_name("Crop & frame"), "Crop & frame");
    assert_eq!(file_name("a/b:c?"), "a b c");
    assert_eq!(file_name("..."), "Kynoko");
}

#[test]
fn urls() {
    let m = "https://app.example/assets/manifests/convert.webmanifest";
    assert_eq!(resolve(m, "/assets/images/x.png"), "https://app.example/assets/images/x.png");
    assert_eq!(resolve(m, "x.png"), "https://app.example/assets/manifests/x.png");
    assert_eq!(resolve(m, "https://cdn.example/x.png"), "https://cdn.example/x.png");
}

#[test]
fn ico() {
    let png = png(64, 64);
    let ico = png_to_ico(&png).unwrap();
    assert_eq!(&ico[0..6], &[0, 0, 1, 0, 4, 0]);
    // First frame: 256 px (written as 0), PNG data at the announced offset.
    assert_eq!(ico[6], 0);
    let offset = u32::from_le_bytes([ico[18], ico[19], ico[20], ico[21]]) as usize;
    assert_eq!(&ico[offset..offset + 4], &[0x89, b'P', b'N', b'G']);
}

#[test]
fn ico_frames_are_where_the_directory_says() {
    let ico = png_to_ico(&png(20, 10)).unwrap();
    let mut end = 70;
    for (k, size) in [256u32, 48, 32, 16].iter().enumerate() {
        let entry = &ico[6 + 16 * k..6 + 16 * k + 16];
        assert_eq!(entry[0] as u32, if *size >= 256 { 0 } else { *size });
        let len = u32::from_le_bytes([entry[8], entry[9], entry[10], entry[11]]) as usize;
        let offset = u32::from_le_bytes([entry[12], entry[13], entry[14], entry[15]]) as usize;
        assert_eq!(offset, end);
        let frame = image::load_from_memory(&ico[offset..offset + len]).unwrap();
        assert_eq!((frame.width(), frame.height()), (*size, *size));
        end = offset + len;
    }
    assert_eq!(end, ico.len());
}

#[test]
fn not_a_png_is_an_error() {
    assert!(png_to_ico(b"not a png").is_err());
}

#[test]
fn control_characters_and_trailing_dots() {
    assert_eq!(file_name("  Tab\there\u{7}.. "), "Tab here");
    assert_eq!(file_name("\u{85}x"), "x");
    assert_eq!(file_name("<>:\"/\\|?*"), "Kynoko");
    assert_eq!(file_name(""), "Kynoko");
    assert_eq!(file_name("a. ."), "a");
}

#[test]
fn relative_sources_without_a_path() {
    assert_eq!(resolve("https://a.example", "/x.png"), "https://a.example/x.png");
    assert_eq!(resolve("https://a.example", "x.png"), "https://a.example/x.png");
    assert_eq!(resolve("manifest", "x.png"), "manifest/x.png");
}

#[test]
fn the_largest_usable_icon() {
    let icons = vec![
        icon(Some("a.png"), Some("192x192"), Some("image/png"), None),
        icon(Some("m.png"), Some("512x512"), Some("image/png"), Some("maskable")),
        icon(Some("s.svg"), Some("1024x1024"), Some("image/svg+xml"), None),
        icon(Some("b.png"), Some("512x512 1024x1024"), None, Some("maskable any")),
        icon(Some("c.png"), Some("+512x512"), None, Some("any")),
        icon(Some("d.png"), Some("big"), None, None),
    ];
    assert_eq!(best_icon(&icons).as_deref(), Some("c.png"));
    assert_eq!(best_icon(&icons[..2]).as_deref(), Some("a.png"));
    assert_eq!(best_icon(&[icon(None, Some("512x512"), None, None), icon(Some("x.png"), None, None, None)]), None);
    assert_eq!(best_icon(&[]), None);
    assert_eq!(best_icon(&[icon(Some("y.png"), Some("4294967296x1"), None, None)]).as_deref(), Some("y.png"));
}

#[test]
fn start_menu_shortcuts() {
    let mut settings = Settings::default();
    let plan = create(&office(), &settings, "en", "C:/Menu");
    assert_eq!(plan.folder, "C:/Menu/Office  Docs");
    let targets: Vec<&str> = plan.links.iter().map(|l| l.target.as_str()).collect();
    assert_eq!(targets, ["Office", "Office/tools/crop", "Office/sheet"]);
    assert_eq!(plan.links[0].path, "C:/Menu/Office  Docs/Office  Docs.lnk");
    assert_eq!(plan.links[0].manifest, "https://office.example/manifest.webmanifest");
    assert_eq!(plan.links[1].path, "C:/Menu/Office  Docs/Crop & frame.lnk");
    assert_eq!(plan.links[1].manifest, "https://office.example/assets/manifests/crop.webmanifest");
    assert_eq!(plan.links[1].icon, "Office-crop");
    assert_eq!(plan.links[2].path, "C:/Menu/Office  Docs/sheet.lnk");
    settings.app_urls.insert("Office".to_string(), "https://test.example//".to_string());
    assert_eq!(app_manifest(&office(), &settings), "https://test.example/manifest.webmanifest");
    let fr = create(&office(), &settings, "fr", "C:/Menu/");
    assert_eq!(fr.folder, "C:/Menu/Bureau");
}

#[test]
fn removing_shortcuts_takes_files_then_folder() {
    let mut inventory = Inventory::default();
    inventory.record(Artefact::Dir { path: "M/Office".to_string() });
    inventory.record(Artefact::File { path: "M/Office/Office.lnk".to_string() });
    inventory.record(Artefact::File { path: "I/Office.ico".to_string() });
    inventory.record(Artefact::File { path: "M/Photo/Photo.lnk".to_string() });
    inventory.record(Artefact::RegistryKey { path: "Software\\Classes\\x".to_string() });
    let gone = remove(&office(), Some("M/Office"), "I", &mut inventory);
    let paths: Vec<String> = gone
        .iter()
        .map(|a| match a {
            Artefact::File { path } => format!("file {path}"),
            Artefact::Dir { path } => format!("dir {path}"),
            _ => "other".to_string(),
        })
        .collect();
    assert_eq!(paths, ["file M/Office/Office.lnk", "file I/Office.ico", "dir M/Office"]);
    assert_eq!(inventory.artefacts.len(), 2);
    let none = remove(&office(), None, "I", &mut inventory);
    assert!(none.is_empty());
}

#[test]
fn removing_shortcuts_takes_bundles_too() {
    let mut inventory = Inventory::default();
    inventory.record(Artefact::Dir { path: "/h/Applications/Kynoko/Office".to_string() });
    inventory.record(Artefact::Tree { path: "/h/Applications/Kynoko/Office/Office.app".to_string() });
    inventory.record(Artefact::Tree { path: "/h/Applications/Kynoko/Photo/Photo.app".to_string() });
    let gone = remove(&office(), Some("/h/Applications/Kynoko/Office"), "/c/icons", &mut inventory);
    assert_eq!(gone.len(), 2);
    assert!(matches!(&gone[0], Artefact::Tree { path } if path.ends_with("Office.app")));
    assert!(matches!(&gone[1], Artefact::Dir { .. }));
    assert_eq!(inventory.artefacts.len(), 1);
    // Without a folder, bundles are not the app's shortcuts.
    assert!(remove(&office(), None, "/c/icons", &mut inventory).is_empty());
}

#[test]
fn no_trailing_blank_or_dot() {
    assert_eq!(file_name("a ."), "a");
    assert_eq!(file_name("x. . ."), "x");
    assert_eq!(file_name(" . "), "Kynoko");
}

#[test]
fn another_app_whose_name_starts_the_same_keeps_its_shortcuts() {
    let photo = App {
        code: "Photo".to_string(),
        url: "https://photo.example/".to_string(),
        names: vec![("en".to_string(), "Kynoko Photo".to_string())],
        status: "live".to_string(),
        facades: vec![Facade { path: "tools/edit".to_string(), names: Vec::new(), files: Vec::new(), listed: true }],
    };
    let mut inventory = Inventory::default();
    inventory.record(Artefact::Dir { path: "M/Kynoko Photo".to_string() });
    inventory.record(Artefact::File { path: "M/Kynoko Photo/Kynoko Photo.lnk".to_string() });
    inventory.record(Artefact::File { path: "I/Photo.ico".to_string() });
    inventory.record(Artefact::File { path: "I/Photo-edit.ico".to_string() });
    inventory.record(Artefact::Dir { path: "M/Kynoko Photo Studio".to_string() });
    inventory.record(Artefact::File { path: "M/Kynoko Photo Studio/Kynoko Photo Studio.lnk".to_string() });
    inventory.record(Artefact::File { path: "I/PhotoStudio.ico".to_string() });
    inventory.record(Artefact::File { path: "I/Photo-Studio.ico".to_string() });
    let gone = remove(&photo, Some("M/Kynoko Photo"), "I", &mut inventory);
    assert_eq!(gone.len(), 4);
    assert_eq!(inventory.artefacts.len(), 4);
    assert!(inventory.artefacts.iter().all(|a| match a {
        Artefact::File { path } | Artefact::Dir { path } => path.contains("Studio"),
        _ => false,
    }));
}

#[test]
fn references_resolve_against_the_manifest() {
    assert_eq!(resolve("https://app.example", "x.png"), "https://app.example/x.png");
    assert_eq!(
        resolve("https://app.example/assets/manifests/convert.webmanifest", "//cdn.example/x.png"),
        "https://cdn.example/x.png"
    );
    assert_eq!(resolve("https://app.example/a/b.json", "/x.png"), "https://app.example/x.png");
}

#[test]
fn icons_are_found_by_their_exact_names() {
    let mut inventory = Inventory::default();
    inventory.record(Artefact::File { path: "C:\\icons\\Office.ico".to_string() });
    inventory.record(Artefact::File { path: "C:\\icons\\Office-crop.ico".to_string() });
    inventory.record(Artefact::File { path: "C:\\icons\\Office-sheet.ico".to_string() });
    inventory.record(Artefact::File { path: "C:\\icons\\Office-other.ico".to_string() });
    inventory.record(Artefact::File { path: "C:\\icons\\Office.ico.bak".to_string() });
    let gone = remove(&office(), None, "C:\\icons\\", &mut inventory);
    assert_eq!(gone.len(), 3);
    assert_eq!(inventory.artefacts.len(), 2);
    let mut linux = Inventory::default();
    linux.record(Artefact::File { path: "/c/icons/Office.png".to_string() });
    assert_eq!(remove(&office(), None, "/c/icons", &mut linux).len(), 1);
}
