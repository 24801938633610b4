//! Which command opens a browser, per platform and browser name.
use vstd::prelude::*;
use crate::text::{str_eq, push_str, chars_to_string};

verus! {

/// The operating system family the launcher runs on.
#[derive(Debug, Clone, Copy, PartialEq, Eq, Structural)]
pub enum Platform {
    Macos,
    Linux,
    Windows,
    Unknown,
}

/// Browser name aliases: `google-chrome`/`google_chrome` are `chrome`,
/// `chromium-browser` is `chromium`.
pub open spec fn canonical_name(name: Seq<char>) -> Seq<char> {
    if name == "google-chrome"@ || name == "google_chrome"@ {
        "chrome"@
    } else if name == "chromium-browser"@ {
        "chromium"@
    } else {
        name
    }
}

/// The launch command for a (canonical) browser name on macOS.
pub open spec fn macos_argv(n: Seq<char>) -> Option<Seq<Seq<char>>> {
    if n == "default"@ {
        Some(seq!["open"@])
    } else if n == "safari"@ {
        Some(seq!["open"@, "-a"@, "Safari"@])
    } else if n == "firefox"@ {
        Some(seq!["open"@, "-a"@, "Firefox"@])
    } else if n == "chrome"@ {
        Some(seq!["open"@, "-a"@, "Google Chrome"@])
    } else if n == "chromium"@ {
        Some(seq!["open"@, "-a"@, "Chromium"@])
    } else if n == "opera"@ {
        Some(seq!["open"@, "-a"@, "Opera"@])
    } else if n == "curl"@ {
        Some(seq!["curl"@, "-s"@])
    } else {
        None
    }
}

/// The launch command for a (canonical) browser name on Linux and other
/// Unix-like systems.
pub open spec fn linux_argv(n: Seq<char>) -> Option<Seq<Seq<char>>> {
    if n == "default"@ {
        Some(seq!["xdg-open"@])
    } else if n == "firefox"@ {
        Some(seq!["firefox"@])
    } else if n == "chrome"@ {
        Some(seq!["google-chrome"@])
    } else if n == "chromium"@ {
        Some(seq!["chromium"@])
    } else if n == "mozilla"@ {
        Some(seq!["mozilla"@])
    } else if n == "epiphany"@ {
        Some(seq!["epiphany"@])
    } else if n == "curl"@ {
        Some(seq!["curl"@, "-s"@])
    } else {
        None
    }
}

/// The launch command for a (canonical) browser name on Windows.
pub open spec fn windows_argv(n: Seq<char>) -> Option<Seq<Seq<char>>> {
    if n == "default"@ || n == "chrome"@ || n == "firefox"@ || n == "edge"@ {
        Some(seq!["cmd"@, "/c"@, "start"@, ""@])
    } else if n == "curl"@ {
        Some(seq!["curl"@, "-s"@])
    } else {
        None
    }
}

/// The argv that launches browser `name` on `platform`, or `None` for a name
/// the table does not know.
pub open spec fn browser_argv_spec(platform: Platform, name: Seq<char>) -> Option<Seq<Seq<char>>> {
    let n = canonical_name(name);
    match platform {
        Platform::Macos => macos_argv(n),
        Platform::Linux | Platform::Unknown => linux_argv(n),
        Platform::Windows => windows_argv(n),
    }
}

pub open spec fn strs_view(v: Seq<&'static str>) -> Seq<Seq<char>> {
    v.map_values(|s: &'static str| s@)
}

pub open spec fn argv_view(a: Option<Vec<&'static str>>) -> Option<Seq<Seq<char>>> {
    match a {
        Some(v) => Some(strs_view(v@)),
        None => None,
    }
}

fn argv1(a: &'static str) -> (r: Option<Vec<&'static str>>)
    ensures
        argv_view(r) == Some(seq![a@]),
{
    let mut v: Vec<&'static str> = Vec::new();
    v.push(a);
    assert(strs_view(v@) =~= seq![a@]);
    Some(v)
}

fn argv2(a: &'static str, b: &'static str) -> (r: Option<Vec<&'static str>>)
    ensures
        argv_view(r) == Some(seq![a@, b@]),
{
    let mut v: Vec<&'static str> = Vec::new();
    v.push(a);
    v.push(b);
    assert(strs_view(v@) =~= seq![a@, b@]);
    Some(v)
}

fn argv3(a: &'static str, b: &'static str, c: &'static str) -> (r: Option<Vec<&'static str>>)
    ensures
        argv_view(r) == Some(seq![a@, b@, c@]),
{
    let mut v: Vec<&'static str> = Vec::new();
    v.push(a);
    v.push(b);
    v.push(c);
    assert(strs_view(v@) =~= seq![a@, b@, c@]);
    Some(v)
}

fn argv4(a: &'static str, b: &'static str, c: &'static str, d: &'static str) -> (r: Option<Vec<&'static str>>)
    ensures
        argv_view(r) == Some(seq![a@, b@, c@, d@]),
{
    let mut v: Vec<&'static str> = Vec::new();
    v.push(a);
    v.push(b);
    v.push(c);
    v.push(d);
    assert(strs_view(v@) =~= seq![a@, b@, c@, d@]);
    Some(v)
}

/// Resolve a browser name to the argv vec used to launch it.
/// Returns `None` for names the table does not know (fall back to the
/// system default; see [`resolved_argv`]).
pub fn browser_argv(platform: Platform, name: &str) -> (r: Option<Vec<&'static str>>)
    ensures
        argv_view(r) == browser_argv_spec(platform, name@),
{
    // Normalise aliases first.
    let name = if str_eq(name, "google-chrome") || str_eq(name, "google_chrome") {
        "chrome"
    } else if str_eq(name, "chromium-browser") {
        "chromium"
    } else {
        name
    };
    match platform {
        Platform::Macos => {
            if str_eq(name, "default") {
                argv1("open")
            } else if str_eq(name, "safari") {
                argv3("open", "-a", "Safari")
            } else if str_eq(name, "firefox") {
                argv3("open", "-a", "Firefox")
            } else if str_eq(name, "chrome") {
                argv3("open", "-a", "Google Chrome")
            } else if str_eq(name, "chromium") {
                argv3("open", "-a", "Chromium")
            } else if str_eq(name, "opera") {
                argv3("open", "-a", "Opera")
            } else if str_eq(name, "curl") {
                argv2("curl", "-s")
            } else {
                None
            }
        },
        Platform::Linux | Platform::Unknown => {
            if str_eq(name, "default") {
                argv1("xdg-open")
            } else if str_eq(name, "firefox") {
                argv1("firefox")
            } else if str_eq(name, "chrome") {
                argv1("google-chrome")
            } else if str_eq(name, "chromium") {
                argv1("chromium")
            } else if str_eq(name, "mozilla") {
                argv1("mozilla")
            } else if str_eq(name, "epiphany") {
                argv1("epiphany")
            } else if str_eq(name, "curl") {
                argv2("curl", "-s")
            } else {
                None
            }
        },
        Platform::Windows => {
            if str_eq(name, "default") || str_eq(name, "chrome") || str_eq(name, "firefox")
                || str_eq(name, "edge") {
                argv4("cmd", "/c", "start", "")
            } else if str_eq(name, "curl") {
                argv2("curl", "-s")
            } else {
                None
            }
        },
    }
}

/// The words joined by single spaces.
pub open spec fn join_words(words: Seq<Seq<char>>) -> Seq<char>
    decreases words.len(),
{
    if words.len() == 0 {
        Seq::empty()
    } else if words.len() == 1 {
        words[0]
    } else {
        join_words(words.drop_last()) + " "@ + words.last()
    }
}

/// Launches a browser (the launch itself is the application's part).
pub struct Browser {
    name: String,
}

impl View for Browser {
    /// The configured browser name.
    type V = Seq<char>;

    closed spec fn view(&self) -> Seq<char> {
        self.name@
    }
}

/// The argv that launches browser `name` on `platform`: the table's entry,
/// or, for a name the table does not know, the system default's.
pub open spec fn resolved_argv(platform: Platform, name: Seq<char>) -> Seq<Seq<char>> {
    match browser_argv_spec(platform, name) {
        Some(v) => v,
        None => browser_argv_spec(platform, "default"@)->0,
    }
}

/// What [`Browser::command`] shows: the resolved argv joined by spaces.
pub open spec fn command_spec(platform: Platform, name: Seq<char>) -> Seq<char> {
    join_words(resolved_argv(platform, name))
}

/// The resolved argv for `name` on `platform`.
fn resolve(platform: Platform, name: &str) -> (r: Vec<&'static str>)
    ensures
        strs_view(r@) == resolved_argv(platform, name@),
{
    match browser_argv(platform, name) {
        Some(v) => v,
        None => {
            proof {
                law_default_has_command(platform);
            }
            match browser_argv(platform, "default") {
                Some(v) => v,
                None => {
                    assert(false);
                    Vec::new()
                },
            }
        },
    }
}

impl Browser {
    /// Create a browser launcher.
    ///
    /// `name` is one of the named browsers (`"safari"`, `"firefox"`,
    /// `"chrome"`, `"chromium"`, `"opera"`, `"curl"`) or `"default"` to use
    /// the system default; any other name falls back to the system default.
    pub fn new(name: &str) -> (r: Self)
        ensures
            r@ == name@,
    {
        Browser { name: String::from_str(name) }
    }

    /// The configured browser name.
    pub fn name(&self) -> (r: &str)
        ensures
            r@ == self@,
    {
        self.name.as_str()
    }

    /// The resolved command string on `platform` (for debug logging).
    pub fn command(&self, platform: Platform) -> (r: String)
        ensures
            r@ == command_spec(platform, self@),
    {
        let v = resolve(platform, self.name.as_str());
        let ghost words = strs_view(v@);
        let mut out: Vec<char> = Vec::new();
        let mut i: usize = 0;
        while i < v.len()
            invariant
                i <= v.len(),
                words == strs_view(v@),
                out@ == join_words(words.take(i as int)),
            decreases v.len() - i,
        {
            if i > 0 {
                push_str(&mut out, " ");
            }
            push_str(&mut out, v[i]);
            proof {
                let t = words.take(i + 1);
                assert(t.drop_last() =~= words.take(i as int));
                if i == 0 {
                    assert(out@ =~= t[0]);
                } else {
                    assert(out@ =~= join_words(t.drop_last()) + " "@ + t.last());
                }
            }
            i += 1;
        }
        assert(words.take(v.len() as int) =~= words);
        chars_to_string(&out)
    }
}

/// The command line that opens `url`: the resolved argv (the system
/// default's for a name the table does not know) with the URL appended.
pub open spec fn launch_argv_spec(platform: Platform, name: Seq<char>, url: Seq<char>) -> Seq<Seq<char>> {
    resolved_argv(platform, name).push(url)
}

pub open spec fn strings_view(v: Seq<String>) -> Seq<Seq<char>> {
    v.map_values(|s: String| s@)
}

/// The command line that opens `url` in browser `name` on `platform`.
pub fn launch_argv(platform: Platform, name: &str, url: &str) -> (r: Vec<String>)
    ensures
        strings_view(r@) == launch_argv_spec(platform, name@, url@),
{
    let mut out: Vec<String> = Vec::new();
    let v = resolve(platform, name);
    let ghost words = strs_view(v@);
    let mut i: usize = 0;
    while i < v.len()
        invariant
            i <= v.len(),
            words == strs_view(v@),
            strings_view(out@) == words.take(i as int),
        decreases v.len() - i,
    {
        let ghost before = out@;
        let w = String::from_str(v[i]);
        out.push(w);
        assert(strings_view(out@) =~= strings_view(before).push(w@));
        assert(words[i as int] == v@[i as int]@);
        assert(words.take(i + 1) =~= words.take(i as int).push(words[i as int]));
        i += 1;
    }
    assert(words.take(v.len() as int) =~= words);
    let ghost before = out@;
    let u = String::from_str(url);
    out.push(u);
    assert(strings_view(out@) =~= strings_view(before).push(u@));
    out
}


// ── Laws ────────────────────────────────────────────────────────────────────

/// The aliases launch what their canonical names launch, on every platform.
pub proof fn law_browser_aliases(platform: Platform)
    ensures
        browser_argv_spec(platform, "google-chrome"@) == browser_argv_spec(platform, "chrome"@),
        browser_argv_spec(platform, "google_chrome"@) == browser_argv_spec(platform, "chrome"@),
        browser_argv_spec(platform, "chromium-browser"@) == browser_argv_spec(platform, "chromium"@),
{
    reveal_strlit("google-chrome");
    reveal_strlit("google_chrome");
    reveal_strlit("chromium-browser");
    reveal_strlit("chrome");
    reveal_strlit("chromium");
    assert("chrome"@.len() == 6 && "chromium"@.len() == 8);
    assert("google-chrome"@.len() == 13 && "google_chrome"@.len() == 13);
    assert("chromium-browser"@.len() == 16);
    assert(canonical_name("google-chrome"@) == "chrome"@);
    assert(canonical_name("google_chrome"@) == "chrome"@);
    assert(canonical_name("chrome"@) == "chrome"@);
    assert(canonical_name("chromium-browser"@) == "chromium"@);
    assert(canonical_name("chromium"@) == "chromium"@);
}

/// `curl` is known on every platform and runs `curl -s`.
pub proof fn law_curl_everywhere(platform: Platform)
    ensures
        browser_argv_spec(platform, "curl"@) == Some(seq!["curl"@, "-s"@]),
{
    reveal_strlit("curl");
    reveal_strlit("google-chrome");
    reveal_strlit("google_chrome");
    reveal_strlit("chromium-browser");
    reveal_strlit("default");
    reveal_strlit("safari");
    reveal_strlit("firefox");
    reveal_strlit("chrome");
    reveal_strlit("chromium");
    reveal_strlit("opera");
    reveal_strlit("mozilla");
    reveal_strlit("epiphany");
    reveal_strlit("edge");
    reveal_strlit("-s");
    assert("curl"@.len() == 4 && "default"@.len() == 7 && "safari"@.len() == 6);
    assert("firefox"@.len() == 7 && "chrome"@.len() == 6 && "chromium"@.len() == 8);
    assert("opera"@.len() == 5 && "mozilla"@.len() == 7 && "epiphany"@.len() == 8);
    assert("google-chrome"@.len() == 13 && "google_chrome"@.len() == 13);
    assert("chromium-browser"@.len() == 16);
    assert("curl"@[0] != "edge"@[0]);
    assert(canonical_name("curl"@) == "curl"@);
    assert(macos_argv("curl"@) == Some(seq!["curl"@, "-s"@]));
    assert(linux_argv("curl"@) == Some(seq!["curl"@, "-s"@]));
    assert(windows_argv("curl"@) == Some(seq!["curl"@, "-s"@]));
}

/// The system default browser has a launch command on every platform.
pub proof fn law_default_has_command(platform: Platform)
    ensures
        browser_argv_spec(platform, "default"@) is Some,
        command_spec(platform, "default"@).len() > 0,
{
    reveal_strlit("default");
    reveal_strlit("google-chrome");
    reveal_strlit("google_chrome");
    reveal_strlit("chromium-browser");
    reveal_strlit("open");
    reveal_strlit("xdg-open");
    reveal_strlit("cmd");
    reveal_strlit("/c");
    reveal_strlit("start");
    reveal_strlit(" ");
    assert("default"@.len() == 7 && "google-chrome"@.len() == 13 && "google_chrome"@.len() == 13);
    assert("chromium-browser"@.len() == 16);
    assert(canonical_name("default"@) == "default"@);
    assert(macos_argv("default"@) == Some(seq!["open"@]));
    assert(linux_argv("default"@) == Some(seq!["xdg-open"@]));
    assert(windows_argv("default"@) == Some(seq!["cmd"@, "/c"@, "start"@, ""@]));
    assert("open"@.len() == 4 && "xdg-open"@.len() == 8 && " "@.len() == 1);
    let v = browser_argv_spec(platform, "default"@)->0;
    assert(v.len() > 0);
    assert(join_words(v).len() > 0) by {
        if v.len() == 1 {
            assert(join_words(v) == v[0]);
        } else {
            assert(v.len() == 4);
            assert(join_words(v) == join_words(v.drop_last()) + " "@ + v.last());
        }
    }
}

/// A name the table does not know falls back to the system default: it
/// launches, and shows, what `default` does.
pub proof fn law_unknown_falls_back(platform: Platform, name: Seq<char>, url: Seq<char>)
    requires
        browser_argv_spec(platform, name) is None,
    ensures
        launch_argv_spec(platform, name, url) == launch_argv_spec(platform, "default"@, url),
        command_spec(platform, name) == command_spec(platform, "default"@),
{
    law_default_has_command(platform);
}

/// The browser table, written out: on every platform each documented name
/// (after the aliases) is known exactly when the table lists it, and it
/// launches the listed command.
pub proof fn law_browser_table(name: Seq<char>)
    ensures
        browser_argv_spec(Platform::Macos, name) is Some <==> seq!["default"@, "safari"@, "firefox"@, "chrome"@,
            "chromium"@, "opera"@, "curl"@].contains(canonical_name(name)),
        browser_argv_spec(Platform::Linux, name) is Some <==> seq!["default"@, "firefox"@, "chrome"@, "chromium"@,
            "mozilla"@, "epiphany"@, "curl"@].contains(canonical_name(name)),
        browser_argv_spec(Platform::Unknown, name) == browser_argv_spec(Platform::Linux, name),
        browser_argv_spec(Platform::Windows, name) is Some <==> seq!["default"@, "chrome"@, "firefox"@, "edge"@,
            "curl"@].contains(canonical_name(name)),
        browser_argv_spec(Platform::Macos, "default"@) == Some(seq!["open"@]),
        browser_argv_spec(Platform::Macos, "safari"@) == Some(seq!["open"@, "-a"@, "Safari"@]),
        browser_argv_spec(Platform::Macos, "firefox"@) == Some(seq!["open"@, "-a"@, "Firefox"@]),
        browser_argv_spec(Platform::Macos, "chrome"@) == Some(seq!["open"@, "-a"@, "Google Chrome"@]),
        browser_argv_spec(Platform::Macos, "chromium"@) == Some(seq!["open"@, "-a"@, "Chromium"@]),
        browser_argv_spec(Platform::Macos, "opera"@) == Some(seq!["open"@, "-a"@, "Opera"@]),
        browser_argv_spec(Platform::Linux, "default"@) == Some(seq!["xdg-open"@]),
        browser_argv_spec(Platform::Linux, "firefox"@) == Some(seq!["firefox"@]),
        browser_argv_spec(Platform::Linux, "chrome"@) == Some(seq!["google-chrome"@]),
        browser_argv_spec(Platform::Linux, "chromium"@) == Some(seq!["chromium"@]),
        browser_argv_spec(Platform::Linux, "mozilla"@) == Some(seq!["mozilla"@]),
        browser_argv_spec(Platform::Linux, "epiphany"@) == Some(seq!["epiphany"@]),
        browser_argv_spec(Platform::Windows, "default"@) == Some(seq!["cmd"@, "/c"@, "start"@, ""@]),
        browser_argv_spec(Platform::Windows, "chrome"@) == Some(seq!["cmd"@, "/c"@, "start"@, ""@]),
        browser_argv_spec(Platform::Windows, "firefox"@) == Some(seq!["cmd"@, "/c"@, "start"@, ""@]),
        browser_argv_spec(Platform::Windows, "edge"@) == Some(seq!["cmd"@, "/c"@, "start"@, ""@]),
{
    reveal_strlit("default");
    reveal_strlit("safari");
    reveal_strlit("firefox");
    reveal_strlit("chrome");
    reveal_strlit("chromium");
    reveal_strlit("opera");
    reveal_strlit("curl");
    reveal_strlit("mozilla");
    reveal_strlit("epiphany");
    reveal_strlit("edge");
    reveal_strlit("google-chrome");
    reveal_strlit("google_chrome");
    reveal_strlit("chromium-browser");
    let n = canonical_name(name);
    let mac = seq!["default"@, "safari"@, "firefox"@, "chrome"@, "chromium"@, "opera"@, "curl"@];
    let lin = seq!["default"@, "firefox"@, "chrome"@, "chromium"@, "mozilla"@, "epiphany"@, "curl"@];
    let win = seq!["default"@, "chrome"@, "firefox"@, "edge"@, "curl"@];
    assert(mac.contains(n) <==> (n == "default"@ || n == "safari"@ || n == "firefox"@ || n == "chrome"@
        || n == "chromium"@ || n == "opera"@ || n == "curl"@)) by {
        if mac.contains(n) {
            let i = choose|i: int| 0 <= i < mac.len() && mac[i] == n;
        }
        if n == "default"@ { assert(mac[0] == n); }
        if n == "safari"@ { assert(mac[1] == n); }
        if n == "firefox"@ { assert(mac[2] == n); }
        if n == "chrome"@ { assert(mac[3] == n); }
        if n == "chromium"@ { assert(mac[4] == n); }
        if n == "opera"@ { assert(mac[5] == n); }
        if n == "curl"@ { assert(mac[6] == n); }
    }
    assert(lin.contains(n) <==> (n == "default"@ || n == "firefox"@ || n == "chrome"@ || n == "chromium"@
        || n == "mozilla"@ || n == "epiphany"@ || n == "curl"@)) by {
        if lin.contains(n) {
            let i = choose|i: int| 0 <= i < lin.len() && lin[i] == n;
        }
        if n == "default"@ { assert(lin[0] == n); }
        if n == "firefox"@ { assert(lin[1] == n); }
        if n == "chrome"@ { assert(lin[2] == n); }
        if n == "chromium"@ { assert(lin[3] == n); }
        if n == "mozilla"@ { assert(lin[4] == n); }
        if n == "epiphany"@ { assert(lin[5] == n); }
        if n == "curl"@ { assert(lin[6] == n); }
    }
    assert(win.contains(n) <==> (n == "default"@ || n == "chrome"@ || n == "firefox"@ || n == "edge"@
        || n == "curl"@)) by {
        if win.contains(n) {
            let i = choose|i: int| 0 <= i < win.len() && win[i] == n;
        }
        if n == "default"@ { assert(win[0] == n); }
        if n == "chrome"@ { assert(win[1] == n); }
        if n == "firefox"@ { assert(win[2] == n); }
        if n == "edge"@ { assert(win[3] == n); }
        if n == "curl"@ { assert(win[4] == n); }
    }
    assert("default"@.len() == 7 && "safari"@.len() == 6 && "firefox"@.len() == 7 && "chrome"@.len() == 6);
    assert("chromium"@.len() == 8 && "opera"@.len() == 5 && "curl"@.len() == 4 && "mozilla"@.len() == 7);
    assert("epiphany"@.len() == 8 && "edge"@.len() == 4 && "google-chrome"@.len() == 13);
    assert("google_chrome"@.len() == 13 && "chromium-browser"@.len() == 16);
    assert(canonical_name("default"@) == "default"@);
    assert(canonical_name("safari"@) == "safari"@);
    assert(canonical_name("firefox"@) == "firefox"@);
    assert(canonical_name("chrome"@) == "chrome"@);
    assert(canonical_name("chromium"@) == "chromium"@);
    assert(canonical_name("opera"@) == "opera"@);
    assert(canonical_name("mozilla"@) == "mozilla"@);
    assert(canonical_name("epiphany"@) == "epiphany"@);
    assert(canonical_name("edge"@) == "edge"@);
    assert("default"@[0] != "firefox"@[0] && "default"@[0] != "mozilla"@[0] && "firefox"@[0] != "mozilla"@[0]);
    assert("safari"@[0] != "chrome"@[0]);
    assert("chromium"@[0] != "epiphany"@[0]);
    assert("curl"@[0] != "edge"@[0]);
}

} // verus!
