use browser_cat::browser::{browser_argv, launch_argv, Browser, Platform};

const PLATFORMS: [Platform; 4] = [Platform::Macos, Platform::Linux, Platform::Windows, Platform::Unknown];

#[test]
fn default_browser_has_command() {
    for p in PLATFORMS {
        let b = Browser::new("default");
        assert!(!b.command(p).is_empty());
    }
}

#[test]
fn alias_google_chrome() {
    // The alias should resolve to the same command as "chrome".
    for p in PLATFORMS {
        let argv_alias = browser_argv(p, "google-chrome");
        let argv_canon = browser_argv(p, "chrome");
        assert_eq!(argv_alias, argv_canon);
    }
}

#[test]
fn unknown_browser_returns_none_from_table() {
    for p in PLATFORMS {
        assert!(browser_argv(p, "netscape").is_none());
    }
}

#[test]
fn curl_browser_known() {
    for p in PLATFORMS {
        let argv = browser_argv(p, "curl");
        assert!(argv.is_some());
        let v = argv.unwrap();
        assert_eq!(v[0], "curl");
    }
}

#[test]
fn platform_tables() {
    assert_eq!(browser_argv(Platform::Macos, "default"), Some(vec!["open"]));
    assert_eq!(browser_argv(Platform::Macos, "google_chrome"), Some(vec!["open", "-a", "Google Chrome"]));
    assert_eq!(browser_argv(Platform::Linux, "chromium-browser"), Some(vec!["chromium"]));
    assert_eq!(browser_argv(Platform::Linux, "chrome"), Some(vec!["google-chrome"]));
    assert_eq!(browser_argv(Platform::Unknown, "epiphany"), Some(vec!["epiphany"]));
    assert_eq!(browser_argv(Platform::Windows, "edge"), Some(vec!["cmd", "/c", "start", ""]));
    assert_eq!(browser_argv(Platform::Windows, "safari"), None);
    assert_eq!(browser_argv(Platform::Linux, "safari"), None);
}

#[test]
fn command_strings() {
    assert_eq!(Browser::new("chrome").command(Platform::Macos), "open -a Google Chrome");
    assert_eq!(Browser::new("default").command(Platform::Linux), "xdg-open");
    assert_eq!(Browser::new("default").command(Platform::Windows), "cmd /c start ");
    // A name outside the table falls back to the system default.
    assert_eq!(Browser::new("/usr/bin/lynx").command(Platform::Linux), "xdg-open");
    assert_eq!(Browser::new("netscape").command(Platform::Macos), "open");
    assert_eq!(Browser::new("lynx").name(), "lynx");
}

#[test]
fn launch_command_lines() {
    assert_eq!(launch_argv(Platform::Macos, "google-chrome", "http://h/"), vec!["open", "-a", "Google Chrome", "http://h/"]);
    assert_eq!(launch_argv(Platform::Linux, "default", "u"), vec!["xdg-open", "u"]);
    assert_eq!(launch_argv(Platform::Windows, "edge", "u"), vec!["cmd", "/c", "start", "", "u"]);
    assert_eq!(launch_argv(Platform::Linux, "/opt/mybrowser", "u"), vec!["xdg-open", "u"]);
    assert_eq!(launch_argv(Platform::Linux, "netscape", "u"), vec!["xdg-open", "u"]);
    assert_eq!(launch_argv(Platform::Windows, "netscape", "u"), vec!["cmd", "/c", "start", "", "u"]);
}
