//! The `update` command: which release is the latest, and whether to install it.

use crate::text;
use vstd::prelude::*;

verus! {

/// Where the latest release is described.
pub const RELEASES_API: &'static str = "https://api.github.com/repos/maadgrom/semanticastindexer/releases/latest";

/// The installer, for a POSIX shell.
pub const UPDATE_INSTALLER_SH: &'static str =
    "https://github.com/maadgrom/semanticastindexer/releases/latest/download/semanticastindexer-installer.sh";

/// The installer, for PowerShell.
pub const UPDATE_INSTALLER_PS1: &'static str =
    "https://github.com/maadgrom/semanticastindexer/releases/latest/download/semanticastindexer-installer.ps1";

/// What is printed after an installation.
pub const UPDATE_COMPLETE: &'static str =
    "update complete — restart any running MCP servers to pick up the new binary";

/// The text that a JSON document holds at a field of its outermost object: `None` where the bytes are
/// no JSON document, where the outermost value is no object or lacks the field, or where the field
/// holds no text.
pub uninterp spec fn json_text(document: Seq<u8>, field: Seq<char>) -> Option<Seq<char>>;

/// Parses a JSON document with `serde_json::from_slice` and reads the text at one field of its
/// outermost object. What the parser accepts is not stated: the result is named, as a function of the
/// bytes and of the field.
#[verifier::external_body]
fn read_json_text(document: &[u8], field: &str) -> (r: Option<String>)
    ensures
        match r {
            Some(s) => json_text(document@, field@) == Some(s@),
            None => json_text(document@, field@) is None,
        },
{
    let json: serde_json::Value = serde_json::from_slice(document).ok()?;
    Some(json.get(field)?.as_str()?.to_string())
}

/// The version a release tag names: the tag without its leading `v`.
pub fn version_of_tag(tag: &str) -> (r: String)
    ensures
        r@ == text::strip_front(tag@, 'v'),
{
    text::trim_front(tag, 'v')
}

/// The version of the latest release, from its description. `body` is `None` where it could not be
/// fetched.
pub fn latest_release_version(body: Option<&[u8]>) -> (r: Option<String>)
    ensures
        match body {
            Some(b) => match json_text(b@, "tag_name"@) {
                Some(tag) => r matches Some(v) && v@ == text::strip_front(tag, 'v'),
                None => r is None,
            },
            None => r is None,
        },
{
    match body {
        Some(b) => match read_json_text(b, "tag_name") {
            Some(tag) => Some(version_of_tag(tag.as_str())),
            None => None,
        },
        None => None,
    }
}

/// What the update command prints first, and whether it then runs the installer.
#[derive(Debug)]
pub struct UpdateStep {
    pub message: String,
    pub install: bool,
}

/// What is said where nothing is to be done.
pub open spec fn current_notice(name: Seq<char>, current: Seq<char>) -> Seq<char> {
    name + " "@ + current + " is already the latest release — nothing to do."@
}

fn say_current(name: &str, current: &str) -> (r: String)
    ensures
        r@ == current_notice(name@, current@),
{
    name.to_string().concat(" ").concat(current).concat(" is already the latest release — nothing to do.")
}

/// Decides an update: nothing is installed where the running version is the latest one. Where the
/// latest one is not known, the installer runs.
pub fn decide_update(name: &str, current: &str, latest: Option<&str>) -> (r: UpdateStep)
    ensures
        match latest {
            Some(l) => if l@ == current@ {
                !r.install && r.message@ == current_notice(name@, current@)
            } else {
                r.install && r.message@ == name@ + " "@ + current@ + " → "@ + l@ + " — updating…"@
            },
            None => r.install && r.message@ == name@ + " "@ + current@ + " — updating to the latest release…"@,
        },
{
    match latest {
        Some(l) => {
            if text::same(l, current) {
                UpdateStep { message: say_current(name, current), install: false }
            } else {
                UpdateStep {
                    message: name.to_string().concat(" ").concat(current).concat(" → ").concat(l).concat(
                        " — updating…",
                    ),
                    install: true,
                }
            }
        },
        None => UpdateStep {
            message: name.to_string().concat(" ").concat(current).concat(" — updating to the latest release…"),
            install: true,
        },
    }
}

/// What the update command prints on Windows, where a running binary cannot be replaced.
pub fn windows_update_notice(name: &str, current: &str, latest: Option<&str>) -> (r: String)
    ensures
        r@ == if latest matches Some(l) && l@ == current@ {
            current_notice(name@, current@)
        } else {
            name@ + " "@ + current@
                + " — a running executable cannot replace itself on Windows.\nRun this in PowerShell to update:\n\n  powershell -c \"irm "@
                + UPDATE_INSTALLER_PS1@ + " | iex\"\n"@
        },
{
    if let Some(l) = latest {
        if text::same(l, current) {
            return say_current(name, current);
        }
    }
    name.to_string().concat(" ").concat(current).concat(
        " — a running executable cannot replace itself on Windows.\nRun this in PowerShell to update:\n\n  powershell -c \"irm ",
    ).concat(UPDATE_INSTALLER_PS1).concat(" | iex\"\n")
}

/// The shell command that installs the latest release.
pub fn installer_command() -> (r: String)
    ensures
        r@ == "curl -fsSL "@ + UPDATE_INSTALLER_SH@ + " | sh"@,
{
    "curl -fsSL ".to_string().concat(UPDATE_INSTALLER_SH).concat(" | sh")
}

} // verus!
