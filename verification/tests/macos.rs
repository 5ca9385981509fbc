use image::ImageEncoder;
use kynoko_launcher::browsers::Engine;
use kynoko_launcher::catalogue::{App, Facade};
use kynoko_launcher::macos::{
    bundle_browser, create_shortcuts, engine_of_bundle, info_plist, launch_script, owner, png_to_icns, profiles_file,
    register, restore_default, shortcut_folder, unregister, BundleInfo, PlistValue, BUNDLE_ID,
};
use kynoko_launcher::settings::{Artefact, Inventory, Settings};

fn app() -> App {
    App {
        code: "Office".to_string(),
        url: "https://office.example".to_string(),
        names: vec![("en".to_string(), "Office".to_string())],
        status: "live".to_string(),
        facades: vec![
            Facade { path: "tools/crop it".to_string(), names: Vec::new(), files: Vec::new(), listed: true },
            Facade { path: "hidden".to_string(), names: Vec::new(), files: Vec::new(), listed: false },
        ],
    }
}

#[test]
fn icns_frame() {
    let icns = png_to_icns(&[0x89, b'P', b'N', b'G', 0, 0]);
    assert_eq!(&icns[0..4], b"icns");
    assert_eq!(u32::from_be_bytes([icns[4], icns[5], icns[6], icns[7]]) as usize, icns.len());
    assert_eq!(&icns[16..20], &[0x89, b'P', b'N', b'G']);
}

#[test]
fn macos_engines() {
    assert_eq!(engine_of_bundle("com.apple.Safari"), Engine::Webkit);
    assert_eq!(engine_of_bundle("com.apple.SafariTechnologyPreview"), Engine::Webkit);
    assert_eq!(engine_of_bundle("org.mozilla.nightly"), Engine::Gecko);
    assert_eq!(engine_of_bundle("com.google.Chrome.canary"), Engine::Chromium);
    assert_eq!(engine_of_bundle("com.microsoft.edgemac.Beta"), Engine::Chromium);
}

#[test]
fn more_bundle_engines() {
    assert_eq!(engine_of_bundle("io.gitlab.librewolf-community"), Engine::Gecko);
    assert_eq!(engine_of_bundle("company.thebrowser.Browser"), Engine::Chromium);
    assert_eq!(engine_of_bundle("epiphany"), Engine::Webkit);
    assert_eq!(engine_of_bundle("com.example.thing"), Engine::Unknown);
}

#[test]
fn icns_types_follow_the_width() {
    let png = |w: u32| {
        let mut out = Vec::new();
        let img = image::RgbaImage::from_pixel(w, 1, image::Rgba([0, 0, 0, 255]));
        image::codecs::png::PngEncoder::new(&mut out).write_image(img.as_raw(), w, 1, image::ExtendedColorType::Rgba8).unwrap();
        out
    };
    assert_eq!(&png_to_icns(&png(1024))[8..12], b"ic10");
    assert_eq!(&png_to_icns(&png(600))[8..12], b"ic09");
    assert_eq!(&png_to_icns(&png(256))[8..12], b"ic08");
    assert_eq!(&png_to_icns(&png(32))[8..12], b"ic07");
    assert_eq!(&png_to_icns(b"garbage")[8..12], b"ic09");
    let p = png(32);
    let icns = png_to_icns(&p);
    assert_eq!(u32::from_be_bytes([icns[12], icns[13], icns[14], icns[15]]) as usize, 8 + p.len());
    assert_eq!(&icns[16..], &p[..]);
}

#[test]
fn defaults_taken_and_given_back() {
    let mut inventory = Inventory::default();
    register(&app(), "org.openxmlformats.wordprocessingml.document", Some("com.microsoft.Word".to_string()), &mut inventory);
    register(&app(), "public.plain-text", Some(BUNDLE_ID.to_string()), &mut inventory);
    register(&app(), "public.csv", None, &mut inventory);
    assert_eq!(inventory.artefacts.len(), 2);
    inventory.record(Artefact::File { path: "x".to_string() });
    assert_eq!(owner(&app()), "com.kynoko.launcher|Office");
    let back = unregister(&app(), &mut inventory);
    assert_eq!(
        back,
        vec![
            ("org.openxmlformats.wordprocessingml.document".to_string(), Some("com.microsoft.Word".to_string())),
            ("public.csv".to_string(), None),
        ]
    );
    assert_eq!(inventory.artefacts.len(), 1);
    assert_eq!(restore_default(Some(BUNDLE_ID), Some("com.microsoft.Word")).as_deref(), Some("com.microsoft.Word"));
    assert_eq!(restore_default(Some("com.other"), Some("com.microsoft.Word")), None);
    assert_eq!(restore_default(Some(BUNDLE_ID), None), None);
}

#[test]
fn browsers_from_bundles() {
    let info = |id: Option<&str>, label: Option<&str>, https: bool| BundleInfo {
        path: "/Applications/Google Chrome.app".to_string(),
        id: id.map(String::from),
        label: label.map(String::from),
        url_schemes: if https { vec!["mailto".to_string(), "https".to_string()] } else { vec!["http".to_string()] },
    };
    let chrome = bundle_browser(&info(Some("com.google.Chrome"), None, true), &[]).unwrap();
    assert_eq!(chrome.name, "Google Chrome");
    assert_eq!(chrome.engine, Engine::Chromium);
    assert_eq!(chrome.command, ["open", "-na", "/Applications/Google Chrome.app", "--args"]);
    assert!(bundle_browser(&info(Some("com.google.Chrome"), None, true), &[chrome.clone()]).is_none());
    assert!(bundle_browser(&info(Some("com.google.Chrome"), None, false), &[]).is_none());
    assert!(bundle_browser(&info(Some(BUNDLE_ID), None, true), &[]).is_none());
    assert!(bundle_browser(&info(None, None, true), &[]).is_none());
    let safari = bundle_browser(&info(Some("com.apple.Safari"), Some("Safari"), true), &[]).unwrap();
    assert_eq!(safari.command, ["open", "-a", "/Applications/Google Chrome.app"]);
    assert_eq!(profiles_file(Engine::Chromium, "com.google.Chrome.beta").as_deref(), Some("Google/Chrome Beta/Local State"));
    assert_eq!(profiles_file(Engine::Gecko, "org.mozilla.firefox").as_deref(), Some("Firefox/profiles.ini"));
    assert_eq!(profiles_file(Engine::Gecko, "io.gitlab.librewolf"), None);
    assert_eq!(profiles_file(Engine::Chromium, "com.operasoftware.Opera"), None);
}

#[test]
fn shortcut_bundles() {
    assert_eq!(shortcut_folder(&app(), "en", "/Users/u"), "/Users/u/Applications/Kynoko/Office");
    let (folder, bundles) = create_shortcuts(&app(), &Settings::default(), "en", "/Users/u/");
    assert_eq!(folder, "/Users/u/Applications/Kynoko/Office");
    assert_eq!(bundles.len(), 2);
    assert_eq!(bundles[0].path, "/Users/u/Applications/Kynoko/Office/Office.app");
    assert_eq!(bundles[0].id, "com.kynoko.launcher.shortcut.office");
    assert_eq!(bundles[0].target, "Office");
    assert_eq!(bundles[1].name, "tools/crop it");
    assert_eq!(bundles[1].path, "/Users/u/Applications/Kynoko/Office/tools crop it.app");
    assert_eq!(bundles[1].id, "com.kynoko.launcher.shortcut.office.crop-it");
    assert_eq!(bundles[1].target, "Office/tools/crop it");
    assert_eq!(bundles[1].manifest, "https://office.example/assets/manifests/crop it.webmanifest");
    let plist = info_plist(&bundles[0], true);
    assert_eq!(plist.len(), 7);
    assert!(matches!(&plist[5], (k, PlistValue::Flag(true)) if k == "LSUIElement"));
    assert!(matches!(&plist[3], (k, PlistValue::Text(v)) if k == "CFBundleIdentifier" && v == "com.kynoko.launcher.shortcut.office"));
    assert_eq!(info_plist(&bundles[0], false).len(), 6);
}

#[test]
fn launch_scripts() {
    assert_eq!(
        launch_script("/Applications/Kynoko Launcher.app/Contents/MacOS/kynoko", "Office/it's"),
        "#!/bin/sh\nexec '/Applications/Kynoko Launcher.app/Contents/MacOS/kynoko' launch 'Office/it'\\''s'\n"
    );
}

#[test]
fn taking_defaults_then_giving_them_back_leaves_the_inventory_as_it_was() {
    let mut inventory = Inventory::default();
    inventory.record(Artefact::Tree { path: "/h/Applications/Kynoko/Office/Office.app".to_string() });
    register(&app(), "public.csv", Some("com.apple.Numbers".to_string()), &mut inventory);
    register(&app(), "public.tsv", None, &mut inventory);
    assert_eq!(inventory.artefacts.len(), 3);
    unregister(&app(), &mut inventory);
    assert_eq!(inventory.artefacts.len(), 1);
    assert!(matches!(&inventory.artefacts[0], Artefact::Tree { path } if path.ends_with("Office.app")));
}
