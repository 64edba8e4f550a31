//! LaunchAgents.

use pipecap::agent::{
    agent_state, install, label, loaded, log_path, plist_path, render_plist, status, status_line,
    uninstall, xml_escape, AgentState,
};

#[test]
fn plist_is_well_formed() {
    let p = render_plist(
        "io.github.pipecap.test",
        &vec!["/bin/x".into(), "a<b".into()],
        "/tmp/l",
    );
    assert!(p.contains("<string>a&lt;b</string>"));
    assert!(p.contains("<key>KeepAlive</key><true/>"));
    assert!(p.ends_with("</plist>\n"));
}

#[test]
fn label_is_lowercase() {
    assert_eq!(label("ABCD1234"), "io.github.pipecap.abcd1234");
}

#[test]
fn the_whole_plist() {
    assert_eq!(
        render_plist("l", &vec!["x".into()], "/log"),
        "<?xml version=\"1.0\" encoding=\"UTF-8\"?>\n\
         <!DOCTYPE plist PUBLIC \"-//Apple//DTD PLIST 1.0//EN\" \"http://www.apple.com/DTDs/PropertyList-1.0.dtd\">\n\
         <plist version=\"1.0\">\n<dict>\n\
         \x20 <key>Label</key><string>l</string>\n\
         \x20 <key>ProgramArguments</key>\n\
         \x20 <array>\n\
         \x20   <string>x</string>\n\
         \x20 </array>\n\
         \x20 <key>RunAtLoad</key><true/>\n\
         \x20 <key>KeepAlive</key><true/>\n\
         \x20 <key>ProcessType</key><string>Background</string>\n\
         \x20 <key>StandardOutPath</key><string>/log</string>\n\
         \x20 <key>StandardErrorPath</key><string>/log</string>\n\
         </dict>\n</plist>\n"
    );
}

#[test]
fn escapes_markup() {
    assert_eq!(xml_escape("a & b < c > &lt;"), "a &amp; b &lt; c &gt; &amp;lt;");
    assert_eq!(xml_escape(""), "");
}

#[test]
fn paths_are_below_home() {
    assert_eq!(
        plist_path(Some("/Users/x"), "AB12").unwrap(),
        "/Users/x/Library/LaunchAgents/io.github.pipecap.ab12.plist"
    );
    assert_eq!(log_path(Some("/Users/x/")).unwrap(), "/Users/x/Library/Logs/pipecap.log");
    assert_eq!(log_path(Some("")).unwrap(), "Library/Logs/pipecap.log");
    assert_eq!(log_path(None).unwrap_err(), "HOME is not set");
    assert_eq!(plist_path(None, "x").unwrap_err(), "HOME is not set");
}

#[test]
fn install_writes_and_loads() {
    let p = install(Some("/h"), "/bin/pipecap", 501, "AB", "144", 10).unwrap();
    assert_eq!(p.path, "/h/Library/LaunchAgents/io.github.pipecap.ab.plist");
    assert_eq!(p.unload, vec!["bootout", "gui/501/io.github.pipecap.ab"]);
    assert_eq!(p.load, vec!["bootstrap", "gui/501", &p.path]);
    for arg in ["/bin/pipecap", "watch", "--display", "AB", "--max-hz", "144", "--interval", "10"] {
        assert!(p.plist.contains(&format!("    <string>{arg}</string>\n")));
    }
    assert!(p.plist.contains("<string>/h/Library/Logs/pipecap.log</string>"));
    assert!(install(None, "x", 1, "y", "1", 1).is_err());
}

#[test]
fn agents_have_three_states() {
    assert_eq!(agent_state(true, true), AgentState::Loaded);
    assert_eq!(agent_state(true, false), AgentState::Loaded);
    assert_eq!(agent_state(false, true), AgentState::NotLoaded);
    assert_eq!(agent_state(false, false), AgentState::NotInstalled);
}

#[test]
fn launchd_outcomes() {
    assert!(loaded(true, "noise").is_ok());
    assert_eq!(loaded(false, " oops\n").unwrap_err(), "launchctl bootstrap failed: oops");
}

#[test]
fn uninstall_and_status() {
    let (path, args) = uninstall(Some("/h"), 501, "AB").unwrap();
    assert_eq!(path, "/h/Library/LaunchAgents/io.github.pipecap.ab.plist");
    assert_eq!(args, vec!["bootout", "gui/501/io.github.pipecap.ab"]);
    let (path, args) = status(Some("/h"), 501, "AB").unwrap();
    assert_eq!(args, vec!["print", "gui/501/io.github.pipecap.ab"]);
    assert_eq!(status_line(&path, AgentState::Loaded), format!("{path}: loaded"));
    assert_eq!(status_line("p", AgentState::NotLoaded), "p: not loaded");
    assert_eq!(status_line("p", AgentState::NotInstalled), "p: not loaded");
    assert!(uninstall(None, 1, "x").is_err());
    assert!(status(None, 1, "x").is_err());
}

#[test]
fn escaping_goes_part_by_part_and_can_be_undone() {
    let undone = |s: &str| s.replace("&lt;", "<").replace("&gt;", ">").replace("&amp;", "&");
    for (a, b) in [("a<", "b"), ("&", "lt;"), ("", "&amp;"), ("x&y", ">"), ("plain", "")] {
        let whole = format!("{a}{b}");
        assert_eq!(xml_escape(&whole), xml_escape(a) + &xml_escape(b));
        assert_eq!(undone(&xml_escape(&whole)), whole);
    }
    assert_ne!(xml_escape("<"), xml_escape("&lt;"));
}
