use kynoko_launcher::catalogue::{App, Cache, Catalogue, Facade, Outcome, Refresh, TileFile, DEFAULT_URL};

fn file(ext: &str, primary: bool) -> TileFile {
    TileFile { ext: ext.to_string(), mime: None, primary }
}

fn facade(path: &str, files: Vec<TileFile>, listed: bool) -> Facade {
    Facade { path: path.to_string(), names: vec![("en".to_string(), path.to_uppercase())], files, listed }
}

fn app(code: &str, status: &str, facades: Vec<Facade>) -> App {
    App {
        code: code.to_string(),
        url: format!("https://{}.example/", code.to_lowercase()),
        names: vec![("en".to_string(), format!("{code} app")), ("fr".to_string(), format!("appli {code}"))],
        status: status.to_string(),
        facades,
    }
}

fn sample(date: &str) -> Catalogue {
    Catalogue {
        v: 1,
        generated_at: date.to_string(),
        apps: vec![
            app("Office", "live", vec![facade("document", vec![file("docx", true), file("odt", false)], true), facade("sheet", vec![file("csv", false), file("docx", false)], false)]),
            app("Photo", "live", vec![facade("edit", vec![file("jpg", true), file("csv", true)], true)]),
            app("Draft", "draft", vec![facade("x", vec![file("txt", true)], true)]),
        ],
    }
}

fn codes(c: &Catalogue) -> Vec<String> {
    c.apps.iter().map(|a| a.code.clone()).collect()
}

#[test]
fn schedule() {
    let mut cache = Cache { checked_at: 1000, ..Default::default() };
    assert_eq!(cache.due_at(), 1000 + 12 * 3600);
    cache.failures = 1;
    assert_eq!(cache.due_at(), 1000 + 300);
    cache.failures = 3;
    assert_eq!(cache.due_at(), 1000 + 2700);
    cache.failures = 30;
    assert_eq!(cache.due_at(), 1000 + 12 * 3600);
}

#[test]
fn schedule_steps() {
    let mut cache = Cache { checked_at: 0, ..Default::default() };
    let waits: Vec<u64> = (1..=6)
        .map(|f| {
            cache.failures = f;
            cache.due_at()
        })
        .collect();
    assert_eq!(waits, [300, 900, 2700, 8100, 24300, 43200]);
    cache.failures = u32::MAX;
    assert_eq!(cache.due_at(), 43200);
}

#[test]
fn lookups() {
    let c = sample("d");
    assert_eq!(c.app("Photo").map(|a| a.code.as_str()), Some("Photo"));
    assert!(c.app("photo").is_none());
    let all = codes(&c);
    assert_eq!(c.app_for_ext("docx", &all).map(|a| a.code.as_str()), Some("Office"));
    assert_eq!(c.app_for_ext("JPG", &all).map(|a| a.code.as_str()), Some("Photo"));
    // The app marking it primary wins over the first one that opens it.
    assert_eq!(c.app_for_ext("csv", &all).map(|a| a.code.as_str()), Some("Photo"));
    // Only among the candidates, and only live apps.
    assert_eq!(c.app_for_ext("csv", &["Office".to_string()]).map(|a| a.code.as_str()), Some("Office"));
    assert!(c.app_for_ext("txt", &all).is_none());
    assert!(c.app_for_ext("exe", &all).is_none());
}

#[test]
fn extensions_and_names() {
    let c = sample("d");
    assert_eq!(c.apps[0].extensions(), ["docx", "odt", "csv"]);
    assert_eq!(c.apps[0].name("fr"), "appli Office");
    assert_eq!(c.apps[0].name("de"), "Office app");
    let nameless = App { names: Vec::new(), ..app("Solo", "live", Vec::new()) };
    assert_eq!(nameless.name("fr"), "Solo");
}

#[test]
fn same_content_ignores_the_date() {
    let a = sample("2026-01-01");
    let b = sample("another date");
    assert!(a.same(&b));
    let mut c = sample("2026-01-01");
    c.apps[1].facades[0].listed = false;
    assert!(!a.same(&c));
    let mut d = sample("2026-01-01");
    d.apps[0].names.reverse();
    assert!(a.same(&d), "names compare as maps");
}

#[test]
fn refresh_outcomes() {
    let mut cache = Cache::default();
    assert_eq!(cache.conditional_etag(), None);
    match cache.record(100, Outcome::Fetched(sample("d1"), Some("\"e1\"".to_string()))) {
        Refresh::Updated(c) => assert_eq!(c.generated_at, "d1"),
        _ => panic!("a first catalogue is an update"),
    }
    assert_eq!(cache.success_at, Some(100));
    assert_eq!(cache.conditional_etag().as_deref(), Some("\"e1\""));
    assert!(matches!(cache.record(200, Outcome::Fetched(sample("d2"), Some("\"e2\"".to_string()))), Refresh::Unchanged));
    assert_eq!(cache.etag.as_deref(), Some("\"e2\""));
    assert!(matches!(cache.record(300, Outcome::NotModified), Refresh::Unchanged));
    match cache.record(400, Outcome::Failed("offline".to_string())) {
        Refresh::Failed(e) => assert_eq!(e, "offline"),
        _ => panic!("a failure is reported"),
    }
    assert_eq!(cache.failures, 1);
    assert_eq!(cache.checked_at, 400);
    assert_eq!(cache.success_at, Some(300));
    assert_eq!(cache.due_at(), 700);
    let mut future = sample("d3");
    future.v = 2;
    match cache.record(500, Outcome::Fetched(future, None)) {
        Refresh::Failed(e) => assert_eq!(e, "unknown catalogue version"),
        _ => panic!("an unknown version is a failure"),
    }
    assert_eq!(cache.failures, 2);
    assert_eq!(cache.last_error.as_deref(), Some("unknown catalogue version"));
    assert!(matches!(cache.record(600, Outcome::NotModified), Refresh::Unchanged));
    assert_eq!(cache.failures, 0);
    assert_eq!(cache.last_error, None);
}

#[test]
fn catalogue_in_use() {
    let bundled = sample("bundled");
    let mut cache = Cache::default();
    assert_eq!(cache.catalogue(&bundled).generated_at, "bundled");
    cache.catalogue = Some(sample("online"));
    assert_eq!(cache.catalogue(&bundled).generated_at, "online");
    let mut other = sample("v2");
    other.v = 2;
    cache.catalogue = Some(other);
    assert_eq!(cache.catalogue(&bundled).generated_at, "bundled");
    assert!(DEFAULT_URL.starts_with("https://"));
}

/// The catalogue shipped with the launcher, as far as these tests read it:
/// Office, Photo Studio and Media Studio, every facade listed.
fn shipped() -> Catalogue {
    Catalogue {
        v: 1,
        generated_at: "2026-09-26T00:00:00Z".to_string(),
        apps: vec![
            app("Office", "live", vec![facade("document", vec![file("docx", true), file("odt", false)], true)]),
            app("PhotoStudio", "live", vec![facade("edit", vec![file("jpg", true), file("png", true)], true)]),
            app("MediaStudio", "live", vec![facade("video", vec![file("mkv", true), file("png", false)], true)]),
        ],
    }
}

#[test]
fn same_content_is_no_change() {
    let a = shipped();
    let mut b = a.clone();
    b.generated_at = "another date".into();
    assert!(a.same(&b));
}

#[test]
fn routing() {
    let c = shipped();
    assert!(c.apps.iter().all(|a| a.facades.iter().all(|f| f.listed)), "bundled facades default to listed");
    let all: Vec<String> = c.apps.iter().map(|a| a.code.clone()).collect();
    assert_eq!(c.app_for_ext("docx", &all).map(|a| a.code.as_str()), Some("Office"));
    assert_eq!(c.app_for_ext("JPG", &all).map(|a| a.code.as_str()), Some("PhotoStudio"));
    assert_eq!(c.app_for_ext("mkv", &all).map(|a| a.code.as_str()), Some("MediaStudio"));
    assert!(c.app_for_ext("exe", &all).is_none());
}

#[test]
fn reads_the_platform_answer() {
    // As the API sends it: empty names, a draft facade.
    let c = Catalogue {
        v: 1,
        generated_at: "2026-09-26T00:00:00Z".to_string(),
        apps: vec![App {
            code: "Office".to_string(),
            url: "https://office.example/".to_string(),
            names: Vec::new(),
            status: "live".to_string(),
            facades: vec![Facade {
                path: "document".to_string(),
                names: vec![("en".to_string(), "Document".to_string())],
                files: vec![TileFile { ext: "docx".to_string(), mime: Some("x".to_string()), primary: false }],
                listed: false,
            }],
        }],
    };
    assert_eq!(c.apps[0].name("fr"), "Office");
    assert!(!c.apps[0].facades[0].listed);
    assert_eq!(c.apps[0].extensions(), ["docx"]);
}
