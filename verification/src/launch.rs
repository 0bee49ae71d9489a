//! How the editor extension finds the language server binary: an explicit
//! path from the settings, then the binary on `PATH`, then the bundled or
//! development builds under the extension's directory, in a fixed order.
//! Asking the editor for settings and probing the file system are left to
//! the program around the library.
use vstd::prelude::*;
use vstd::string::{StringSliceAdditionalSpecFns, StringExecFns};
use crate::chars::{chars_of, string_of_all};
use crate::expand::{replace_all, replace_all_chars};
use crate::hover::{join, views, join_strings};
use crate::text::str_eq;

verus! {

/// The name the server is registered under.
pub open spec fn spec_server_name() -> Seq<char> {
    "latex-preview"@
}

/// Whether `server_id` names this extension's server.
pub fn is_preview_server(server_id: &str) -> (r: bool)
    ensures
        r == (server_id@ == spec_server_name()),
{
    str_eq(server_id, "latex-preview")
}

/// The language server binary's file name on the platform.
pub fn lsp_binary_name(windows: bool) -> (r: &'static str)
    ensures
        r@ == (if windows { "latex-preview-lsp.exe"@ } else { "latex-preview-lsp"@ }),
{
    if windows {
        "latex-preview-lsp.exe"
    } else {
        "latex-preview-lsp"
    }
}

/// `s` without its trailing `/` and `\` characters.
pub open spec fn trim_end_slashes(s: Seq<char>) -> Seq<char>
    decreases s.len(),
{
    if s.len() > 0 && (s.last() == '/' || s.last() == '\\') {
        trim_end_slashes(s.drop_last())
    } else {
        s
    }
}

/// The installed copy of the working directory `pwd`: each `work`
/// directory component taken as `installed` (backslash-separated first,
/// then slash-separated), without trailing separators.
pub open spec fn installed_dir(pwd: Seq<char>) -> Seq<char> {
    trim_end_slashes(replace_all(replace_all(pwd, "\\work\\"@, "\\installed\\"@), "/work/"@, "/installed/"@))
}

/// The build directories probed under a base directory, in order.
pub open spec fn spec_build_dirs() -> Seq<Seq<char>> {
    seq!["bin"@, "latex-index/target/release"@, "latex-index/target/debug"@]
}

/// The binary paths probed under the base directory `dir` (none for an
/// empty base).
pub open spec fn dir_candidates(dir: Seq<char>, exe: Seq<char>) -> Seq<Seq<char>> {
    if dir.len() == 0 {
        Seq::empty()
    } else {
        Seq::new(3, |k: int| dir + "/"@ + spec_build_dirs()[k] + "/"@ + exe)
    }
}

/// Every binary path probed, in order: under the working directory `pwd`,
/// then under its installed copy.
pub open spec fn spec_candidates(pwd: Seq<char>, exe: Seq<char>) -> Seq<Seq<char>> {
    dir_candidates(trim_end_slashes(pwd), exe) + dir_candidates(installed_dir(pwd), exe)
}

fn trim_slashes(v: &Vec<char>) -> (r: Vec<char>)
    ensures
        r@ == trim_end_slashes(v@),
{
    let mut n = v.len();
    assert(v@.take(n as int) =~= v@);
    while n > 0 && (v[n - 1] == '/' || v[n - 1] == '\\')
        invariant
            n <= v@.len(),
            trim_end_slashes(v@.take(n as int)) == trim_end_slashes(v@),
        decreases n,
    {
        assert(v@.take(n as int).drop_last() =~= v@.take(n - 1));
        n -= 1;
    }
    let mut out: Vec<char> = Vec::new();
    let mut k: usize = 0;
    while k < n
        invariant
            k <= n <= v@.len(),
            out@ == v@.take(k as int),
        decreases n - k,
    {
        out.push(v[k]);
        assert(v@.take(k + 1) =~= v@.take(k as int).push(v@[k as int]));
        k += 1;
    }
    out
}

fn push_dir_candidates(out: &mut Vec<String>, dir: &Vec<char>, exe: &str)
    ensures
        views(final(out)@) == views(old(out)@) + dir_candidates(dir@, exe@),
{
    if dir.len() == 0 {
        assert(views(out@) =~= views(out@) + dir_candidates(dir@, exe@));
        return;
    }
    let base = string_of_all(dir.as_slice());
    let subs = ["bin", "latex-index/target/release", "latex-index/target/debug"];
    let ghost start = views(out@);
    let mut k: usize = 0;
    while k < 3
        invariant
            k <= 3,
            base@ == dir@,
            dir@.len() > 0,
            subs@.len() == 3,
            subs@[0]@ == spec_build_dirs()[0],
            subs@[1]@ == spec_build_dirs()[1],
            subs@[2]@ == spec_build_dirs()[2],
            views(out@) == start + dir_candidates(dir@, exe@).take(k as int),
        decreases 3 - k,
    {
        let mut c = base.clone();
        c.append("/");
        c.append(subs[k]);
        c.append("/");
        c.append(exe);
        let ghost before = out@;
        out.push(c);
        assert(views(out@) =~= views(before).push(c@));
        assert(dir_candidates(dir@, exe@).take(k + 1) =~= dir_candidates(dir@, exe@).take(k as int).push(c@));
        k += 1;
    }
    assert(dir_candidates(dir@, exe@).take(3) =~= dir_candidates(dir@, exe@));
}

/// The bundled and development binary paths to probe, in order, for the
/// working directory `pwd` and the binary name `exe`.
pub fn binary_candidates(pwd: &str, exe: &str) -> (r: Vec<String>)
    ensures
        views(r@) == spec_candidates(pwd@, exe@),
{
    let v = chars_of(pwd);
    let raw = trim_slashes(&v);
    let w1 = chars_of("\\work\\");
    let i1 = chars_of("\\installed\\");
    let w2 = chars_of("/work/");
    let i2 = chars_of("/installed/");
    let step = replace_all_chars(&v, &w1, &i1);
    let swapped = replace_all_chars(&step, &w2, &i2);
    let installed = trim_slashes(&swapped);
    let mut out: Vec<String> = Vec::new();
    assert(views(out@) =~= Seq::<Seq<char>>::empty());
    push_dir_candidates(&mut out, &raw, exe);
    push_dir_candidates(&mut out, &installed, exe);
    assert(views(out@) =~= spec_candidates(pwd@, exe@));
    out
}

/// What the extension does first when asked to start a server.
pub enum LaunchStep {
    /// The server is not this extension's.
    UnknownServer,
    /// Start this binary.
    Run(String),
    /// Probe the bundled and development binaries in order.
    Probe,
}

/// The first step of starting the server `server_id`: refuse another
/// server's name; else run the binary the settings name, else the one on
/// `PATH`; else probe.
pub fn launch_step(server_id: &str, settings_path: Option<String>, on_path: Option<String>) -> (r: LaunchStep)
    ensures
        server_id@ != spec_server_name() ==> r is UnknownServer,
        server_id@ == spec_server_name() ==> match settings_path {
            Some(p) => r matches LaunchStep::Run(c) && c@ == p@,
            None => match on_path {
                Some(p) => r matches LaunchStep::Run(c) && c@ == p@,
                None => r is Probe,
            },
        },
{
    if !is_preview_server(server_id) {
        return LaunchStep::UnknownServer;
    }
    match settings_path {
        Some(p) => LaunchStep::Run(p),
        None => match on_path {
            Some(p) => LaunchStep::Run(p),
            None => LaunchStep::Probe,
        },
    }
}

/// The message shown when no binary was found: where it looked and how to
/// fix it.
pub open spec fn not_found_text(exe: Seq<char>, tried: Seq<Seq<char>>) -> Seq<char> {
    "latex-preview: `"@ + exe + "` was not found.  Looked in:\n      "@ + join(tried, "\n      "@)
        + "\n  Fix one of:\n    1. Put `"@ + exe + "` on your PATH and reload Zed.\n    2. Set `lsp.latex-preview.binary.path` in Zed settings to an absolute path.\n    3. Build it and copy it into `bin/` next to `extension.wasm`:\n         cd latex-index && cargo build --release --bin latex-preview-lsp\n         cp target/release/"@
        + exe + " ../bin/"@
}

pub fn not_found_message(exe: &str, tried: &Vec<String>) -> (r: String)
    ensures
        r@ == not_found_text(exe@, views(tried@)),
{
    let list = join_strings(tried, "\n      ");
    let mut out = String::new();
    out.append("latex-preview: `");
    out.append(exe);
    out.append("` was not found.  Looked in:\n      ");
    out.append(list.as_str());
    out.append("\n  Fix one of:\n    1. Put `");
    out.append(exe);
    out.append("` on your PATH and reload Zed.\n    2. Set `lsp.latex-preview.binary.path` in Zed settings to an absolute path.\n    3. Build it and copy it into `bin/` next to `extension.wasm`:\n         cd latex-index && cargo build --release --bin latex-preview-lsp\n         cp target/release/");
    out.append(exe);
    out.append(" ../bin/");
    assert(out@ =~= not_found_text(exe@, views(tried@)));
    out
}

} // verus!
