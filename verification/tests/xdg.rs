use kynoko_launcher::xdg::{
    defaults_group, desktop_entry, entry_get, exec_argv, exec_quote, flatpak_app_exec, mime_package, mimeapps_added,
    mimeapps_get, mimeapps_set, program_of, render_entry,
};

#[test]
fn entries() {
    let text = "[Desktop Entry]\nName=Firefox\nName[fr]=Firefox\nExec=/usr/lib/firefox/firefox %u\nMimeType=text/html;x-scheme-handler/https;\n[Desktop Action new-window]\nExec=nope\n";
    let e = desktop_entry(text);
    assert_eq!(entry_get(&e, "Name").unwrap(), "Firefox");
    assert_eq!(entry_get(&e, "Exec").unwrap(), "/usr/lib/firefox/firefox %u");
    assert!(entry_get(&e, "MimeType").unwrap().contains("x-scheme-handler/https"));
}

#[test]
fn argv() {
    assert_eq!(exec_argv("/usr/bin/google-chrome-stable %U"), ["/usr/bin/google-chrome-stable"]);
    assert_eq!(exec_argv(r#""/opt/My Browser/b" --x=1 %u"#), ["/opt/My Browser/b", "--x=1"]);
    assert_eq!(exec_argv("app 100%%"), ["app", "100%"]);
    let flatpak = exec_argv("/usr/bin/flatpak run --branch=stable --arch=x86_64 --command=firefox org.mozilla.firefox @@u %u @@");
    assert_eq!(program_of(&flatpak), "firefox");
    assert_eq!(flatpak.last().map(String::as_str), Some("org.mozilla.firefox"));
    assert_eq!(program_of(&exec_argv("/usr/bin/brave-browser-stable %U")), "brave-browser-stable");
}

#[test]
fn quoting() {
    assert_eq!(exec_quote("/opt/kynoko/kynoko-launcher"), "/opt/kynoko/kynoko-launcher");
    assert_eq!(exec_quote("/home/u/Mes Apps/K.AppImage"), "\"/home/u/Mes Apps/K.AppImage\"");
    assert_eq!(exec_quote("a$b"), "\"a\\$b\"");
}

#[test]
fn package() {
    let xml = mime_package(&[("text/csv".into(), "csv".into()), ("application/x-kynoko-kphoto".into(), "kphoto".into())]);
    assert!(xml.contains("<mime-type type=\"text/csv\">\n    <glob pattern=\"*.csv\"/>"));
    assert!(xml.contains("application/x-kynoko-kphoto"));
}

#[test]
fn mimeapps() {
    let defaults = defaults_group();
    let list = "[Default Applications]\ntext/html=firefox.desktop;\n\n[Added Associations]\ntext/csv=libreoffice-calc.desktop;\n";
    assert_eq!(mimeapps_get(list, defaults, "text/html").as_deref(), Some("firefox.desktop"));
    assert_eq!(mimeapps_get(list, defaults, "text/csv"), None);
    let set = mimeapps_set(list, defaults, "text/csv", Some("kynoko-launcher-open-Office.desktop"));
    assert_eq!(mimeapps_get(&set, defaults, "text/csv").as_deref(), Some("kynoko-launcher-open-Office.desktop"));
    assert!(set.contains("text/html=firefox.desktop;"), "other lines kept");
    let back = mimeapps_set(&set, defaults, "text/csv", None);
    assert_eq!(mimeapps_get(&back, defaults, "text/csv"), None);
    // A missing group is created.
    let fresh = mimeapps_set("", defaults, "text/csv", Some("x.desktop"));
    assert_eq!(fresh, "[Default Applications]\ntext/csv=x.desktop;\n");
    // Open with: added first, removed alone.
    let added = mimeapps_added(list, "text/csv", "k.desktop", true);
    assert!(added.contains("text/csv=k.desktop;libreoffice-calc.desktop;"));
    let removed = mimeapps_added(&added, "text/csv", "k.desktop", false);
    assert!(removed.contains("text/csv=libreoffice-calc.desktop;"));
}

#[test]
fn set_then_get_reads_back_on_crlf_text() {
    let list = "[Default Applications]\r\ntext/plain=gedit.desktop;\r\n[Other]\r\ntext/csv=a.desktop;\r\n";
    let defaults = defaults_group();
    let set = mimeapps_set(list, defaults, "text/csv", Some("k.desktop;other.desktop"));
    assert_eq!(mimeapps_get(&set, defaults, "text/csv").as_deref(), Some("k.desktop"));
    assert_eq!(mimeapps_get(&set, defaults, "text/plain").as_deref(), Some("gedit.desktop"));
    assert_eq!(mimeapps_get(&set, "[Other]", "text/csv").as_deref(), Some("a.desktop"));
}

#[test]
fn set_replaces_the_first_line_and_drops_duplicates() {
    let list = "[Default Applications]\ntext/csv=a.desktop;\ntext/csv=b.desktop;\n";
    let set = mimeapps_set(list, defaults_group(), "text/csv", Some("c.desktop"));
    assert_eq!(set, "[Default Applications]\ntext/csv=c.desktop;\n");
}

#[test]
fn set_closes_the_group_before_the_next_one() {
    let list = "[Default Applications]\ntext/html=f.desktop;\n[Added Associations]\ntext/csv=x.desktop;\n";
    let set = mimeapps_set(list, defaults_group(), "text/csv", Some("k.desktop"));
    assert_eq!(
        set,
        "[Default Applications]\ntext/html=f.desktop;\ntext/csv=k.desktop;\n[Added Associations]\ntext/csv=x.desktop;\n"
    );
}

#[test]
fn unset_then_get_is_none() {
    let list = "[Default Applications]\ntext/csv=a.desktop;\n";
    let back = mimeapps_set(list, defaults_group(), "text/csv", None);
    assert_eq!(back, "[Default Applications]\n");
    assert_eq!(mimeapps_get(&back, defaults_group(), "text/csv"), None);
}

#[test]
fn quoted_values_read_back_as_one_argument() {
    for s in ["/opt/kynoko/kynoko-launcher", "/home/u/Mes Apps/K.AppImage", "a$b\"c\\d`e", "tab\there"] {
        assert_eq!(exec_argv(&exec_quote(s)), [s]);
    }
}

#[test]
fn entry_line_of_the_launcher_reads_back() {
    let exe = "/home/u/My Apps/K.AppImage";
    let line = format!("{} open %F", exec_quote(exe));
    assert_eq!(exec_argv(&line), [exe, "open"]);
}

#[test]
fn desktop_entry_keeps_the_first_of_each_key() {
    let e = desktop_entry("# comment\n[Desktop Entry]\n Name = One \nName=Two\nType=Application\n");
    assert_eq!(e, vec![("Name".to_string(), "One".to_string()), ("Type".to_string(), "Application".to_string())]);
}

#[test]
fn flatpak_application() {
    let argv: Vec<String> = vec!["flatpak".into(), "run".into(), "--arch=x86_64".into(), "org.x.Browser".into()];
    assert_eq!(flatpak_app_exec(&argv).as_deref(), Some("org.x.Browser"));
    assert_eq!(flatpak_app_exec(&["firefox".to_string()]), None);
}

#[test]
fn rendering() {
    let text = render_entry(
        &[("Type", "Application".to_string()), ("Name", "X".to_string())],
        &[("a".to_string(), "A".to_string(), "x launch a".to_string())],
    );
    assert_eq!(
        text,
        "[Desktop Entry]\nType=Application\nName=X\nActions=a;\n\n[Desktop Action a]\nName=A\nExec=x launch a\n"
    );
    assert_eq!(render_entry(&[("Type", "Link".to_string())], &[]), "[Desktop Entry]\nType=Link\n");
}

#[test]
fn a_percent_reads_back() {
    assert_eq!(exec_argv(&exec_quote("a%b")), ["a%b"]);
    assert_eq!(exec_argv(&exec_quote("%")), ["%"]);
    assert_eq!(exec_argv(&exec_quote("100% sure")), ["100% sure"]);
}

#[test]
fn setting_twice_is_setting_once() {
    let defaults = defaults_group();
    let lists = [
        "",
        "[Default Applications]\ntext/html=firefox.desktop;\ntext/csv=a.desktop;\ntext/csv=b.desktop;\n",
        "[Added Associations]\ntext/csv=c.desktop;\n\n[Default Applications]\ntext/html=firefox.desktop;\n[Other]\nx=y\n",
    ];
    for list in lists {
        for value in [Some("k.desktop"), None] {
            let once = mimeapps_set(list, defaults, "text/csv", value);
            assert_eq!(mimeapps_set(&once, defaults, "text/csv", value), once);
        }
    }
}

#[test]
fn open_with_list_reads_back_in_order() {
    let list = "[Added Associations]\ntext/csv=a.desktop;k.desktop;b.desktop;\n";
    let added = mimeapps_added(list, "text/csv", "k.desktop", true);
    assert_eq!(added, "[Added Associations]\ntext/csv=k.desktop;a.desktop;b.desktop;\n");
    let removed = mimeapps_added(list, "text/csv", "k.desktop", false);
    assert_eq!(removed, "[Added Associations]\ntext/csv=a.desktop;b.desktop;\n");
    // The last one removed takes its line away.
    let alone = mimeapps_added("[Added Associations]\ntext/csv=k.desktop;\n", "text/csv", "k.desktop", false);
    assert_eq!(alone, "[Added Associations]\n");
    assert_eq!(mimeapps_get(&alone, "[Added Associations]", "text/csv"), None);
}

#[test]
fn a_rendered_entry_reads_back() {
    let text = render_entry(
        &[("Type", "Application".to_string()), ("Name", "X".to_string()), ("Exec", "x %u".to_string())],
        &[
            ("a".to_string(), "A".to_string(), "x launch a".to_string()),
            ("b".to_string(), "B".to_string(), "x launch b".to_string()),
        ],
    );
    let read = desktop_entry(&text);
    let expected: Vec<(String, String)> = [
        ("Type", "Application"),
        ("Name", "X"),
        ("Exec", "x %u"),
        ("Actions", "a;b;"),
    ]
    .iter()
    .map(|(k, v)| (k.to_string(), v.to_string()))
    .collect();
    assert_eq!(read, expected);
    let plain = render_entry(&[("Type", "Link".to_string())], &[]);
    assert_eq!(desktop_entry(&plain), vec![("Type".to_string(), "Link".to_string())]);
}

#[test]
fn setting_keeps_every_other_line_in_order() {
    let defaults = defaults_group();
    let list = "[Default Applications]\nx/y=a.desktop;\n# mine\ntext/csv=b.desktop;\n[Other]\ntext/csv=c.desktop;\n";
    assert_eq!(
        mimeapps_set(list, defaults, "text/csv", Some("k.desktop")),
        "[Default Applications]\nx/y=a.desktop;\n# mine\ntext/csv=k.desktop;\n[Other]\ntext/csv=c.desktop;\n"
    );
    assert_eq!(
        mimeapps_set(list, defaults, "text/csv", None),
        "[Default Applications]\nx/y=a.desktop;\n# mine\n[Other]\ntext/csv=c.desktop;\n"
    );
    // A missing group comes after an empty line.
    assert_eq!(
        mimeapps_set("[Other]\nx=y\n", defaults, "text/csv", Some("k.desktop")),
        "[Other]\nx=y\n\n[Default Applications]\ntext/csv=k.desktop;\n"
    );
}

#[test]
fn a_replaced_line_may_end_in_a_carriage_return() {
    let defaults = defaults_group();
    let list = "[Default Applications]\r\ntext/csv=a.desktop;\r\r\nx/y=b.desktop;\r\n";
    let once = mimeapps_set(list, defaults, "text/csv", Some("k.desktop"));
    assert_eq!(once, "[Default Applications]\ntext/csv=k.desktop;\nx/y=b.desktop;\n");
    assert_eq!(mimeapps_set(&once, defaults, "text/csv", Some("k.desktop")), once);
}
