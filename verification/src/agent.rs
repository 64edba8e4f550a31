//! LaunchAgent management: keep a cap applied across logins, sleep/wake and cable re-plugs by
//! running `pipecap watch` in the background.

use vstd::prelude::*;

use crate::text::{chars_of, lowered_text, push_dec, trimmed_text};
use crate::{text, text_laws};

verus! {

/// The label of the agent for the display with the given id.
pub open spec fn label_text(id: Seq<char>) -> Seq<char> {
    "io.github.pipecap."@ + text::lowered(id)
}

/// The label of the agent for the display with the given id.
pub fn label(id: &str) -> (s: String)
    ensures
        s@ == label_text(id@),
{
    let mut s = String::new();
    let lower = lowered_text(id);
    s.append("io.github.pipecap.");
    s.append(lower.as_str());
    assert(s@ =~= label_text(id@));
    s
}

// ---------------------------------------------------------------------------
// Paths.

/// The relative path `rel` below the directory `base`.
pub open spec fn below(base: Seq<char>, rel: Seq<char>) -> Seq<char> {
    if base.len() == 0 || base.last() == '/' {
        base + rel
    } else {
        base + "/"@ + rel
    }
}

/// Appends the relative path `rel` to the directory `base`.
pub fn push_below(base: &mut String, rel: &str)
    ensures
        final(base)@ == below(old(base)@, rel@),
{
    let cs = chars_of(base.as_str());
    let n = cs.len();
    if n > 0 && cs[n - 1] != '/' {
        base.append("/");
    }
    base.append(rel);
}

/// Where the property list of the agent for the display with the given id stands.
pub open spec fn plist_place(home: Seq<char>, id: Seq<char>) -> Seq<char> {
    below(below(home, "Library/LaunchAgents"@), label_text(id) + ".plist"@)
}

/// Where the property list of the agent for the display with the given id stands, below the
/// user's home directory; an error message when that is not known.
pub fn plist_path(home: Option<&str>, id: &str) -> (r: Result<String, String>)
    ensures
        match (home, r) {
            (Some(h), Ok(p)) => p@ == plist_place(h@, id@),
            (None, Err(e)) => e@ == "HOME is not set"@,
            _ => false,
        },
{
    match home {
        Some(h) => {
            let mut p = h.to_string();
            push_below(&mut p, "Library/LaunchAgents");
            let mut file = label(id);
            file.append(".plist");
            push_below(&mut p, file.as_str());
            Ok(p)
        },
        None => Err("HOME is not set".to_string()),
    }
}

/// Where the agents write their log, below the user's home directory; an error message when
/// that is not known.
pub fn log_path(home: Option<&str>) -> (r: Result<String, String>)
    ensures
        match (home, r) {
            (Some(h), Ok(p)) => p@ == below(h@, "Library/Logs/pipecap.log"@),
            (None, Err(e)) => e@ == "HOME is not set"@,
            _ => false,
        },
{
    match home {
        Some(h) => {
            let mut p = h.to_string();
            push_below(&mut p, "Library/Logs/pipecap.log");
            Ok(p)
        },
        None => Err("HOME is not set".to_string()),
    }
}

// ---------------------------------------------------------------------------
// The property list.

/// A character as it is written in XML text.
pub open spec fn escaped_char(c: char) -> Seq<char> {
    if c == '&' {
        "&amp;"@
    } else if c == '<' {
        "&lt;"@
    } else if c == '>' {
        "&gt;"@
    } else {
        seq![c]
    }
}

/// A text as it is written in XML.
pub open spec fn escaped(s: Seq<char>) -> Seq<char>
    decreases s.len(),
{
    if s.len() == 0 {
        Seq::empty()
    } else {
        escaped(s.drop_last()) + escaped_char(s.last())
    }
}

/// Escaped text opens and closes no tag.
pub proof fn law_escaped_has_no_tags(s: Seq<char>)
    ensures
        forall|i: int|
            0 <= i < escaped(s).len() ==> (#[trigger] escaped(s)[i]) != '<' && escaped(s)[i] != '>',
    decreases s.len(),
{
    reveal_strlit("&amp;");
    reveal_strlit("&lt;");
    reveal_strlit("&gt;");
    if s.len() > 0 {
        let before = escaped(s.drop_last());
        let more = escaped_char(s.last());
        law_escaped_has_no_tags(s.drop_last());
        assert forall|i: int| 0 <= i < escaped(s).len() implies (#[trigger] escaped(s)[i]) != '<'
            && escaped(s)[i] != '>' by {
            if i < before.len() {
                assert(escaped(s)[i] == before[i]);
            } else {
                assert(escaped(s)[i] == more[i - before.len()]);
            }
        }
    }
}

/// A text is escaped part by part.
pub proof fn law_escaped_joins(a: Seq<char>, b: Seq<char>)
    ensures
        escaped(a + b) == escaped(a) + escaped(b),
    decreases b.len(),
{
    if b.len() == 0 {
        assert(a + b =~= a);
        assert(escaped(a) + escaped(b) =~= escaped(a));
    } else {
        assert((a + b).drop_last() =~= a + b.drop_last());
        law_escaped_joins(a, b.drop_last());
        assert(escaped(a + b) =~= escaped(a) + escaped(b));
    }
}

/// The text that XML text stands for.
pub open spec fn unescaped(s: Seq<char>) -> Seq<char>
    decreases s.len(),
{
    if s.len() == 0 {
        Seq::empty()
    } else if text::begins_with(s, "&amp;"@) && s.len() >= 5 {
        seq!['&'] + unescaped(s.skip(5))
    } else if text::begins_with(s, "&lt;"@) && s.len() >= 4 {
        seq!['<'] + unescaped(s.skip(4))
    } else if text::begins_with(s, "&gt;"@) && s.len() >= 4 {
        seq!['>'] + unescaped(s.skip(4))
    } else {
        seq![s[0]] + unescaped(s.skip(1))
    }
}

/// Escaping can be undone, so different texts are written differently.
pub proof fn law_escaped_can_be_undone(s: Seq<char>)
    ensures
        unescaped(escaped(s)) == s,
    decreases s.len(),
{
    reveal_strlit("&amp;");
    reveal_strlit("&lt;");
    reveal_strlit("&gt;");
    if s.len() > 0 {
        let c = s[0];
        let rest = s.drop_first();
        let first = escaped_char(c);
        let whole = escaped(s);
        assert(seq![c] + rest =~= s);
        law_escaped_joins(seq![c], rest);
        assert(seq![c].drop_last() =~= Seq::<char>::empty());
        assert(escaped(Seq::<char>::empty()) =~= Seq::<char>::empty());
        assert(escaped(seq![c]) == escaped(Seq::<char>::empty()) + first);
        assert(escaped(seq![c]) =~= first);
        assert(whole == first + escaped(rest));
        law_escaped_can_be_undone(rest);
        assert(whole.skip(first.len() as int) =~= escaped(rest));
        if c == '&' || c == '<' || c == '>' {
            assert(whole.subrange(0, first.len() as int) =~= first);
            assert(whole[1] == first[1]);
            if c == '<' {
                assert(!text::begins_with(whole, "&amp;"@)) by {
                    if text::begins_with(whole, "&amp;"@) {
                        assert(whole.subrange(0, 5)[1] == 'a');
                    }
                }
            } else if c == '>' {
                assert(!text::begins_with(whole, "&amp;"@)) by {
                    if text::begins_with(whole, "&amp;"@) {
                        assert(whole.subrange(0, 5)[1] == 'a');
                    }
                }
                assert(!text::begins_with(whole, "&lt;"@)) by {
                    if text::begins_with(whole, "&lt;"@) {
                        assert(whole.subrange(0, 4)[1] == 'l');
                    }
                }
            }
        } else {
            assert(whole[0] == c);
            assert(!text::begins_with(whole, "&amp;"@)) by {
                if text::begins_with(whole, "&amp;"@) {
                    assert(whole.subrange(0, 5)[0] == '&');
                }
            }
            assert(!text::begins_with(whole, "&lt;"@)) by {
                if text::begins_with(whole, "&lt;"@) {
                    assert(whole.subrange(0, 4)[0] == '&');
                }
            }
            assert(!text::begins_with(whole, "&gt;"@)) by {
                if text::begins_with(whole, "&gt;"@) {
                    assert(whole.subrange(0, 4)[0] == '&');
                }
            }
        }
        assert(unescaped(whole) =~= s);
    }
}

fn push_escaped(out: &mut String, s: &str)
    ensures
        final(out)@ == old(out)@ + escaped(s@),
{
    let cs = chars_of(s);
    let mut i: usize = 0;
    assert(out@ =~= old(out)@ + escaped(s@.take(0)));
    while i < cs.len()
        invariant
            i <= cs.len(),
            cs@ == s@,
            out@ == old(out)@ + escaped(s@.take(i as int)),
        decreases cs.len() - i,
    {
        let c = cs[i];
        if c == '&' {
            out.append("&amp;");
        } else if c == '<' {
            out.append("&lt;");
        } else if c == '>' {
            out.append("&gt;");
        } else {
            out.push(c);
        }
        proof {
            assert(s@.take(i + 1).drop_last() =~= s@.take(i as int));
            assert(out@ =~= old(out)@ + (escaped(s@.take(i as int)) + escaped_char(c)));
        }
        i += 1;
    }
    assert(s@.take(i as int) =~= s@);
}

/// A text as it is written in XML.
pub fn xml_escape(s: &str) -> (out: String)
    ensures
        out@ == escaped(s@),
{
    let mut out = String::new();
    push_escaped(&mut out, s);
    assert(out@ =~= escaped(s@));
    out
}

/// How the property list begins.
pub open spec fn plist_head() -> Seq<char> {
    "<?xml version=\"1.0\" encoding=\"UTF-8\"?>\n<!DOCTYPE plist PUBLIC \"-//Apple//DTD PLIST 1.0//EN\" \"http://www.apple.com/DTDs/PropertyList-1.0.dtd\">\n<plist version=\"1.0\">\n<dict>\n"@
}

/// The lines for the arguments.
pub open spec fn argument_lines(args: Seq<Seq<char>>) -> Seq<char>
    decreases args.len(),
{
    if args.len() == 0 {
        Seq::empty()
    } else {
        argument_lines(args.drop_last()) + "    <string>"@ + escaped(args.last())
            + "</string>\n"@
    }
}

/// The property list of an agent: its label, its arguments and its log.
pub open spec fn plist_text(label: Seq<char>, args: Seq<Seq<char>>, log: Seq<char>) -> Seq<char> {
    plist_head() + "  <key>Label</key><string>"@ + escaped(label) + "</string>\n"@
        + "  <key>ProgramArguments</key>\n  <array>\n"@ + argument_lines(args)
        + "  </array>\n"@ + "  <key>RunAtLoad</key><true/>\n"@
        + "  <key>KeepAlive</key><true/>\n"@
        + "  <key>ProcessType</key><string>Background</string>\n"@
        + "  <key>StandardOutPath</key><string>"@ + escaped(log) + "</string>\n"@
        + "  <key>StandardErrorPath</key><string>"@ + escaped(log) + "</string>\n"@
        + "</dict>\n</plist>\n"@
}

/// Renders the LaunchAgent property list.
pub fn render_plist(label: &str, args: &Vec<String>, log: &str) -> (s: String)
    ensures
        s@ == plist_text(label@, text::texts(args@), log@),
{
    let ghost all = text::texts(args@);
    let mut s = String::new();
    s.append(
        "<?xml version=\"1.0\" encoding=\"UTF-8\"?>\n<!DOCTYPE plist PUBLIC \"-//Apple//DTD PLIST 1.0//EN\" \"http://www.apple.com/DTDs/PropertyList-1.0.dtd\">\n<plist version=\"1.0\">\n<dict>\n",
    );
    s.append("  <key>Label</key><string>");
    push_escaped(&mut s, label);
    s.append("</string>\n");
    s.append("  <key>ProgramArguments</key>\n  <array>\n");
    let ghost before = s@;
    assert(before =~= plist_head() + "  <key>Label</key><string>"@ + escaped(label@)
        + "</string>\n"@ + "  <key>ProgramArguments</key>\n  <array>\n"@);
    let mut i: usize = 0;
    assert(s@ =~= before + argument_lines(all.take(0)));
    while i < args.len()
        invariant
            i <= args.len(),
            all == text::texts(args@),
            s@ == before + argument_lines(all.take(i as int)),
        decreases args.len() - i,
    {
        s.append("    <string>");
        push_escaped(&mut s, args[i].as_str());
        s.append("</string>\n");
        proof {
            assert(all.take(i + 1).drop_last() =~= all.take(i as int));
            assert(all.take(i + 1).last() == args@[i as int]@);
            assert(s@ =~= before + argument_lines(all.take(i + 1)));
        }
        i += 1;
    }
    assert(all.take(i as int) =~= all);
    s.append("  </array>\n");
    s.append("  <key>RunAtLoad</key><true/>\n");
    s.append("  <key>KeepAlive</key><true/>\n");
    s.append("  <key>ProcessType</key><string>Background</string>\n");
    s.append("  <key>StandardOutPath</key><string>");
    push_escaped(&mut s, log);
    s.append("</string>\n");
    s.append("  <key>StandardErrorPath</key><string>");
    push_escaped(&mut s, log);
    s.append("</string>\n");
    s.append("</dict>\n</plist>\n");
    assert(s@ =~= plist_text(label@, all, log@));
    s
}

// ---------------------------------------------------------------------------
// What launchd is asked to do.

/// The launchd domain of a user.
pub open spec fn domain(uid: u32) -> Seq<char> {
    "gui/"@ + text::dec(uid as nat)
}

/// The launchd name of the agent for the display with the given id.
pub open spec fn agent_target(uid: u32, id: Seq<char>) -> Seq<char> {
    domain(uid) + "/"@ + label_text(id)
}

/// The arguments that an agent runs `pipecap watch` with.
pub open spec fn watch_arguments(
    exe: Seq<char>,
    id: Seq<char>,
    max_hz: Seq<char>,
    interval_secs: u64,
) -> Seq<Seq<char>> {
    seq![
        exe,
        "watch"@,
        "--display"@,
        id,
        "--max-hz"@,
        max_hz,
        "--interval"@,
        text::dec(interval_secs as nat),
    ]
}

fn push_domain(s: &mut String, uid: u32)
    ensures
        final(s)@ == old(s)@ + domain(uid),
{
    s.append("gui/");
    push_dec(s, uid as u128);
    assert(s@ =~= old(s)@ + domain(uid));
}

fn target_of(uid: u32, id: &str) -> (s: String)
    ensures
        s@ == agent_target(uid, id@),
{
    let mut s = String::new();
    push_domain(&mut s, uid);
    s.append("/");
    let l = label(id);
    s.append(l.as_str());
    assert(s@ =~= agent_target(uid, id@));
    s
}

/// The arguments of `launchctl` that act on the agent for the display with the given id.
fn agent_arguments(verb: &str, uid: u32, id: &str) -> (v: Vec<String>)
    ensures
        text::texts(v@) == seq![verb@, agent_target(uid, id@)],
{
    let mut v: Vec<String> = Vec::new();
    v.push(verb.to_string());
    v.push(target_of(uid, id));
    assert(text::texts(v@) =~= seq![verb@, agent_target(uid, id@)]);
    v
}

/// What installing an agent takes: write `plist` to `path`, run `launchctl` with `unload`,
/// whatever comes of it, then with `load`.
pub struct Install {
    pub path: String,
    pub plist: String,
    pub unload: Vec<String>,
    pub load: Vec<String>,
}

/// What installing an agent takes.
#[verifier::ext_equal]
pub struct InstallSteps {
    pub path: Seq<char>,
    pub plist: Seq<char>,
    pub unload: Seq<Seq<char>>,
    pub load: Seq<Seq<char>>,
}

impl View for Install {
    type V = InstallSteps;

    open spec fn view(&self) -> InstallSteps {
        InstallSteps {
            path: self.path@,
            plist: self.plist@,
            unload: text::texts(self.unload@),
            load: text::texts(self.load@),
        }
    }
}

/// What installing the agent for the display `id` takes, for the program `exe`, which caps at
/// `max_hz`.
pub open spec fn install_steps(
    home: Seq<char>,
    exe: Seq<char>,
    uid: u32,
    id: Seq<char>,
    max_hz: Seq<char>,
    interval_secs: u64,
) -> InstallSteps {
    InstallSteps {
        path: plist_place(home, id),
        plist: plist_text(
            label_text(id),
            watch_arguments(exe, id, max_hz, interval_secs),
            below(home, "Library/Logs/pipecap.log"@),
        ),
        unload: seq!["bootout"@, agent_target(uid, id)],
        load: seq!["bootstrap"@, domain(uid), plist_place(home, id)],
    }
}

/// What writing the property list of an agent and loading it with launchd takes; an error
/// message when the home directory is not known.
pub fn install(
    home: Option<&str>,
    exe: &str,
    uid: u32,
    id: &str,
    max_hz: &str,
    interval_secs: u64,
) -> (r: Result<Install, String>)
    ensures
        match (home, r) {
            (Some(h), Ok(p)) => p@ == install_steps(h@, exe@, uid, id@, max_hz@, interval_secs),
            (None, Err(e)) => e@ == "HOME is not set"@,
            _ => false,
        },
{
    let path = match plist_path(home, id) {
        Ok(p) => p,
        Err(e) => {
            return Err(e);
        },
    };
    let log = match log_path(home) {
        Ok(p) => p,
        Err(e) => {
            return Err(e);
        },
    };
    let mut interval = String::new();
    push_dec(&mut interval, interval_secs as u128);
    assert(interval@ =~= text::dec(interval_secs as nat));
    let mut args: Vec<String> = Vec::new();
    args.push(exe.to_string());
    args.push("watch".to_string());
    args.push("--display".to_string());
    args.push(id.to_string());
    args.push("--max-hz".to_string());
    args.push(max_hz.to_string());
    args.push("--interval".to_string());
    args.push(interval);
    assert(text::texts(args@) =~= watch_arguments(exe@, id@, max_hz@, interval_secs));
    let name = label(id);
    let plist = render_plist(name.as_str(), &args, log.as_str());
    let mut load: Vec<String> = Vec::new();
    let mut d = String::new();
    push_domain(&mut d, uid);
    assert(d@ =~= domain(uid));
    load.push("bootstrap".to_string());
    load.push(d);
    load.push(path.clone());
    assert(text::texts(load@) =~= seq!["bootstrap"@, domain(uid), path@]);
    let unload = agent_arguments("bootout", uid, id);
    Ok(Install { path, plist, unload, load })
}

/// Whether launchd took the agent, by how `launchctl` ended and what it printed.
pub fn loaded(success: bool, stderr: &str) -> (r: Result<(), String>)
    ensures
        match r {
            Ok(()) => success,
            Err(e) => !success && e@ == "launchctl bootstrap failed: "@ + text::trimmed(stderr@),
        },
{
    if success {
        Ok(())
    } else {
        let mut e = String::new();
        let why = trimmed_text(stderr);
        e.append("launchctl bootstrap failed: ");
        e.append(why.as_str());
        assert(e@ =~= "launchctl bootstrap failed: "@ + text::trimmed(stderr@));
        Err(e)
    }
}

/// What removing the agent for the display `id` takes: run `launchctl` with the arguments,
/// whatever comes of it, and remove the file.
pub fn uninstall(home: Option<&str>, uid: u32, id: &str) -> (r: Result<
    (String, Vec<String>),
    String,
>)
    ensures
        match (home, r) {
            (Some(h), Ok((p, unload))) => {
                &&& p@ == plist_place(h@, id@)
                &&& text::texts(unload@) == seq!["bootout"@, agent_target(uid, id@)]
            },
            (None, Err(e)) => e@ == "HOME is not set"@,
            _ => false,
        },
{
    match plist_path(home, id) {
        Ok(p) => Ok((p, agent_arguments("bootout", uid, id))),
        Err(e) => Err(e),
    }
}

/// What asking for the state of the agent for the display `id` takes: the place of its
/// property list, and the arguments of the `launchctl` run that succeeds when it is loaded.
pub fn status(home: Option<&str>, uid: u32, id: &str) -> (r: Result<
    (String, Vec<String>),
    String,
>)
    ensures
        match (home, r) {
            (Some(h), Ok((p, ask))) => {
                &&& p@ == plist_place(h@, id@)
                &&& text::texts(ask@) == seq!["print"@, agent_target(uid, id@)]
            },
            (None, Err(e)) => e@ == "HOME is not set"@,
            _ => false,
        },
{
    match plist_path(home, id) {
        Ok(p) => Ok((p, agent_arguments("print", uid, id))),
        Err(e) => Err(e),
    }
}

/// The state of an agent.
#[derive(Debug, Clone, Copy, PartialEq, Eq, Structural)]
pub enum AgentState {
    /// launchd runs it.
    Loaded,
    /// Its property list exists, but launchd does not run it.
    NotLoaded,
    /// It has no property list, and launchd does not run it.
    NotInstalled,
}

/// The state of an agent, by whether launchd runs it and whether its property list exists.
pub fn agent_state(loaded: bool, plist_exists: bool) -> (state: AgentState)
    ensures
        state == (if loaded {
            AgentState::Loaded
        } else if plist_exists {
            AgentState::NotLoaded
        } else {
            AgentState::NotInstalled
        }),
{
    if loaded {
        AgentState::Loaded
    } else if plist_exists {
        AgentState::NotLoaded
    } else {
        AgentState::NotInstalled
    }
}

/// The line that says whether the agent is loaded.
pub fn status_line(path: &str, state: AgentState) -> (s: String)
    ensures
        s@ == path@ + ": "@ + (match state {
            AgentState::Loaded => "loaded"@,
            _ => "not loaded"@,
        }),
{
    let mut s = path.to_string();
    s.append(": ");
    match state {
        AgentState::Loaded => s.append("loaded"),
        _ => s.append("not loaded"),
    }
    s
}

// ---------------------------------------------------------------------------
// What an agent does.

/// A path below a directory is the directory, one slash, and the path.
pub proof fn law_below(base: Seq<char>, rel: Seq<char>)
    ensures
        base.len() > 0 && base.last() != '/' ==> below(base, rel) == base.push('/') + rel,
        below(base.push('/'), rel) == base.push('/') + rel,
        below(Seq::empty(), rel) == rel,
        rel.is_suffix_of(below(base, rel)),
{
    reveal_strlit("/");
    assert("/"@ =~= seq!['/']);
    if base.len() > 0 && base.last() != '/' {
        assert(below(base, rel) =~= base.push('/') + rel);
    }
    assert(base.push('/').last() == '/');
    assert(below(Seq::empty(), rel) =~= rel);
    let all = below(base, rel);
    assert(rel =~= all.subrange(all.len() - rel.len(), all.len() as int));
}

/// The lines for the arguments: one for each, in order.
pub proof fn law_argument_lines(args: Seq<Seq<char>>, a: Seq<char>)
    ensures
        argument_lines(Seq::empty()) == Seq::<char>::empty(),
        argument_lines(args.push(a)) == argument_lines(args) + ("    <string>"@ + escaped(a)
            + "</string>\n"@),
{
    assert(args.push(a).drop_last() =~= args);
    assert(argument_lines(args.push(a)) =~= argument_lines(args) + ("    <string>"@ + escaped(a)
        + "</string>\n"@));
}

/// A property list names the label and the log, and its arguments stand in it one behind the
/// other; it is run at once and kept running.
pub proof fn law_plist(label: Seq<char>, args: Seq<Seq<char>>, log: Seq<char>)
    ensures
        text_laws::holds(
            plist_text(label, args, log),
            "  <key>Label</key><string>"@ + escaped(label) + "</string>\n"@,
        ),
        text_laws::holds(
            plist_text(label, args, log),
            "  <key>ProgramArguments</key>\n  <array>\n"@ + argument_lines(args) + "  </array>\n"@,
        ),
        text_laws::holds(plist_text(label, args, log), "  <key>RunAtLoad</key><true/>\n"@),
        text_laws::holds(plist_text(label, args, log), "  <key>KeepAlive</key><true/>\n"@),
        text_laws::holds(
            plist_text(label, args, log),
            "  <key>StandardOutPath</key><string>"@ + escaped(log) + "</string>\n"@,
        ),
        text_laws::holds(
            plist_text(label, args, log),
            "  <key>StandardErrorPath</key><string>"@ + escaped(log) + "</string>\n"@,
        ),
        "</dict>\n</plist>\n"@.is_suffix_of(plist_text(label, args, log)),
{
    let all = plist_text(label, args, log);
    let a = "  <key>Label</key><string>"@ + escaped(label) + "</string>\n"@;
    let b = "  <key>ProgramArguments</key>\n  <array>\n"@ + argument_lines(args)
        + "  </array>\n"@;
    let c = "  <key>RunAtLoad</key><true/>\n"@;
    let d = "  <key>KeepAlive</key><true/>\n"@;
    let e = "  <key>ProcessType</key><string>Background</string>\n"@;
    let f = "  <key>StandardOutPath</key><string>"@ + escaped(log) + "</string>\n"@;
    let g = "  <key>StandardErrorPath</key><string>"@ + escaped(log) + "</string>\n"@;
    let h = "</dict>\n</plist>\n"@;
    let p = plist_head();
    text_laws::lemma_holds(p, a);
    text_laws::lemma_holds(p + a, b);
    text_laws::lemma_holds(p + a + b, c);
    text_laws::lemma_holds(p + a + b + c, d);
    text_laws::lemma_holds(p + a + b + c + d + e, f);
    text_laws::lemma_holds(p + a + b + c + d + e + f, g);
    text_laws::lemma_still_holds(p + a, a, b);
    text_laws::lemma_still_holds(p + a + b, a, c);
    text_laws::lemma_still_holds(p + a + b, b, c);
    text_laws::lemma_still_holds(p + a + b + c, a, d);
    text_laws::lemma_still_holds(p + a + b + c, b, d);
    text_laws::lemma_still_holds(p + a + b + c, c, d);
    text_laws::lemma_still_holds(p + a + b + c + d, a, e);
    text_laws::lemma_still_holds(p + a + b + c + d, b, e);
    text_laws::lemma_still_holds(p + a + b + c + d, c, e);
    text_laws::lemma_still_holds(p + a + b + c + d, d, e);
    text_laws::lemma_still_holds(p + a + b + c + d + e, a, f);
    text_laws::lemma_still_holds(p + a + b + c + d + e, b, f);
    text_laws::lemma_still_holds(p + a + b + c + d + e, c, f);
    text_laws::lemma_still_holds(p + a + b + c + d + e, d, f);
    text_laws::lemma_still_holds(p + a + b + c + d + e + f, a, g);
    text_laws::lemma_still_holds(p + a + b + c + d + e + f, b, g);
    text_laws::lemma_still_holds(p + a + b + c + d + e + f, c, g);
    text_laws::lemma_still_holds(p + a + b + c + d + e + f, d, g);
    text_laws::lemma_still_holds(p + a + b + c + d + e + f, f, g);
    let most = p + a + b + c + d + e + f + g;
    text_laws::lemma_still_holds(most, a, h);
    text_laws::lemma_still_holds(most, b, h);
    text_laws::lemma_still_holds(most, c, h);
    text_laws::lemma_still_holds(most, d, h);
    text_laws::lemma_still_holds(most, f, h);
    text_laws::lemma_still_holds(most, g, h);
    lemma_plist_parts(label, args, log);
    assert(h =~= all.subrange(all.len() - h.len(), all.len() as int));
}

proof fn lemma_grouped(x: Seq<char>, a: Seq<char>, b: Seq<char>, c: Seq<char>)
    ensures
        x + a + b + c == x + (a + b + c),
{
    assert(x + a + b + c =~= x + (a + b + c));
}

/// The property list part by part.
proof fn lemma_plist_parts(label: Seq<char>, args: Seq<Seq<char>>, log: Seq<char>)
    ensures
        plist_text(label, args, log) == plist_head() + ("  <key>Label</key><string>"@ + escaped(
            label,
        ) + "</string>\n"@) + ("  <key>ProgramArguments</key>\n  <array>\n"@ + argument_lines(args)
            + "  </array>\n"@) + "  <key>RunAtLoad</key><true/>\n"@
            + "  <key>KeepAlive</key><true/>\n"@
            + "  <key>ProcessType</key><string>Background</string>\n"@ + (
        "  <key>StandardOutPath</key><string>"@ + escaped(log) + "</string>\n"@) + (
        "  <key>StandardErrorPath</key><string>"@ + escaped(log) + "</string>\n"@)
            + "</dict>\n</plist>\n"@,
{
    let a = "  <key>Label</key><string>"@ + escaped(label) + "</string>\n"@;
    let b = "  <key>ProgramArguments</key>\n  <array>\n"@ + argument_lines(args)
        + "  </array>\n"@;
    let c = "  <key>RunAtLoad</key><true/>\n"@;
    let d = "  <key>KeepAlive</key><true/>\n"@;
    let e = "  <key>ProcessType</key><string>Background</string>\n"@;
    let f = "  <key>StandardOutPath</key><string>"@ + escaped(log) + "</string>\n"@;
    let x = plist_head();
    lemma_grouped(x, "  <key>Label</key><string>"@, escaped(label), "</string>\n"@);
    lemma_grouped(
        x + a,
        "  <key>ProgramArguments</key>\n  <array>\n"@,
        argument_lines(args),
        "  </array>\n"@,
    );
    lemma_grouped(
        x + a + b + c + d + e,
        "  <key>StandardOutPath</key><string>"@,
        escaped(log),
        "</string>\n"@,
    );
    lemma_grouped(
        x + a + b + c + d + e + f,
        "  <key>StandardErrorPath</key><string>"@,
        escaped(log),
        "</string>\n"@,
    );
}

/// An agent is installed under one label: the file is named by it, launchd is asked to unload it
/// and to load that file in the domain of the user, and the property list in the file carries
/// the label and runs `watch` for that display, at that rate and with that interval.
pub proof fn law_install(
    home: Seq<char>,
    exe: Seq<char>,
    uid: u32,
    id: Seq<char>,
    max_hz: Seq<char>,
    interval_secs: u64,
)
    ensures
        ({
            let s = install_steps(home, exe, uid, id, max_hz, interval_secs);
            let label = "io.github.pipecap."@ + text::lowered(id);
            let user = "gui/"@ + text::dec(uid as nat);
            let args = seq![
                exe,
                "watch"@,
                "--display"@,
                id,
                "--max-hz"@,
                max_hz,
                "--interval"@,
                text::dec(interval_secs as nat),
            ];
            &&& (label + ".plist"@).is_suffix_of(s.path)
            &&& s.path == below(below(home, "Library/LaunchAgents"@), label + ".plist"@)
            &&& s.load == seq!["bootstrap"@, user, s.path]
            &&& s.unload == seq!["bootout"@, user + "/"@ + label]
            &&& s.plist == plist_text(label, args, below(home, "Library/Logs/pipecap.log"@))
        }),
{
    let label = label_text(id);
    law_below(below(home, "Library/LaunchAgents"@), label + ".plist"@);
}

} // verus!
