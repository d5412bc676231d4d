//! Locating the Lightroom bridge and Node.js, and describing what was found.
//! Each probe of the file system or shell is handed in as a closure; the
//! order of the probes and what their answers decide is fixed here.

use vstd::prelude::*;
use crate::text::{str_eq, chars_of, string_from_chars};
use crate::text_trim::{first_line_trimmed, first_line, trimmed};

verus! {

/// Where Node.js can be downloaded.
pub const NODE_INSTALL_URL: &'static str = "https://nodejs.org/en/download";

/// Shown when no Lightroom helper can be found.
pub const MISSING_HELPER: &'static str = "ASPEN-LRC-CONNECT-SPAWN: Lightroom helper is unavailable. Aspen normally bundles it; if this build is missing resources, install Node.js LTS from https://nodejs.org/en/download (no Homebrew required), then restart Aspen.";

/// Shown when the helper is ready.
pub const HELPER_READY: &'static str = "Lightroom MCP helper is ready (Node.js not required).";

/// The availability of the helper and of Node.js.
#[derive(Debug, Clone)]
pub struct RuntimeDepsStatus {
    pub lightroom_mcp_ready: bool,
    pub lightroom_mcp_path: Option<String>,
    pub lightroom_mcp_source: String,
    pub node_available: bool,
    pub npx_path: Option<String>,
    pub node_install_url: String,
    pub message: String,
}

/// Describe the runtime dependencies: `mcp` is the helper lookup's outcome,
/// `npx` the `npx` lookup's; `node_found` is asked only when there is no `npx`.
pub fn runtime_deps_status<N: FnOnce() -> bool>(
    mcp: Result<(String, String), String>,
    npx: Option<String>,
    node_found: N,
) -> (s: RuntimeDepsStatus)
    requires
        node_found.requires(()),
    ensures
        s.node_install_url@ == NODE_INSTALL_URL@,
        npx is Some ==> s.node_available,
        npx is None ==> node_found.ensures((), s.node_available),
        s.npx_path == npx,
        s.lightroom_mcp_ready == mcp is Ok,
        mcp matches Ok(found) ==> s.lightroom_mcp_path == Some(found.0) && s.lightroom_mcp_source == found.1
            && s.message@ == HELPER_READY@,
        mcp matches Err(e) ==> s.lightroom_mcp_path is None && s.lightroom_mcp_source@ == "missing"@
            && s.message == e,
{
    let node_available = if npx.is_some() {
        true
    } else {
        node_found()
    };
    match mcp {
        Ok((path, source)) => RuntimeDepsStatus {
            lightroom_mcp_ready: true,
            lightroom_mcp_path: Some(path),
            lightroom_mcp_source: source,
            node_available,
            npx_path: npx,
            node_install_url: String::from_str(NODE_INSTALL_URL),
            message: String::from_str(HELPER_READY),
        },
        Err(error) => RuntimeDepsStatus {
            lightroom_mcp_ready: false,
            lightroom_mcp_path: None,
            lightroom_mcp_source: String::from_str("missing"),
            node_available,
            npx_path: npx,
            node_install_url: String::from_str(NODE_INSTALL_URL),
            message: error,
        },
    }
}

/// The release of the Lightroom helper that is downloaded.
pub const LIGHTROOM_MCP_VERSION: &'static str = "v0.9.0";

/// The package that `npx` runs.
pub const LIGHTROOM_MCP_PACKAGE: &'static str = "@mskalski/lightroom-mcp";

/// Arguments for starting the helper found by `source`: `npx` needs the
/// package named; a standalone binary takes none.
pub fn lightroom_mcp_args(source: &str) -> (args: Vec<String>)
    ensures
        source@ == "npx"@ ==> args@.len() == 2 && args@[0]@ == "-y"@ && args@[1]@ == LIGHTROOM_MCP_PACKAGE@,
        source@ != "npx"@ ==> args@.len() == 0,
{
    let mut args: Vec<String> = Vec::new();
    if str_eq(source, "npx") {
        args.push(String::from_str("-y"));
        args.push(String::from_str(LIGHTROOM_MCP_PACKAGE));
    }
    args
}

/// The release asset of the helper for a CPU architecture.
pub fn helper_asset(arch: &str) -> (r: Result<&'static str, String>)
    ensures
        arch@ == "aarch64"@ ==> (r matches Ok(a) && a@ == "lightroom-mcp-darwin-arm64"@),
        arch@ == "x86_64"@ ==> (r matches Ok(a) && a@ == "lightroom-mcp-darwin-x64"@),
        arch@ != "aarch64"@ && arch@ != "x86_64"@ ==> (r matches Err(e) && e@
            == "unsupported architecture for Lightroom MCP: "@ + arch@),
{
    proof {
        reveal_strlit("aarch64");
        reveal_strlit("x86_64");
        assert("aarch64"@.len() != "x86_64"@.len());
    }
    if str_eq(arch, "aarch64") {
        Ok("lightroom-mcp-darwin-arm64")
    } else if str_eq(arch, "x86_64") {
        Ok("lightroom-mcp-darwin-x64")
    } else {
        let mut e = String::from_str("unsupported architecture for Lightroom MCP: ");
        e.append(arch);
        Err(e)
    }
}

/// Where a release asset of the helper is downloaded from.
pub fn helper_download_url(asset: &str) -> (url: String)
    ensures
        url@ == "https://github.com/Automaat/lightroom-mcp/releases/download/"@ + LIGHTROOM_MCP_VERSION@ + "/"@
            + asset@,
{
    let mut url = String::from_str("https://github.com/Automaat/lightroom-mcp/releases/download/");
    url.append(LIGHTROOM_MCP_VERSION);
    url.append("/");
    url.append(asset);
    url
}

/// A cached copy of the bundled helper is reused only when it is a file of
/// the bundled binary's size, and not empty.
pub fn cached_copy_is_current(dest_is_file: bool, dest_size: u64, source_size: u64) -> (b: bool)
    ensures
        b == (dest_is_file && dest_size == source_size && dest_size > 0),
{
    dest_is_file && dest_size == source_size && dest_size > 0
}

/// The bundled helper cannot be used: there is none, or copying it to the
/// cache failed and it could not be made executable in place either.
pub open spec fn bundled_unusable<B, C, E>(bundled: B, copy_to_cache: C, make_executable: E) -> bool
    where
        B: FnOnce() -> Option<String>,
        C: FnOnce(&str) -> Result<String, String>,
        E: FnOnce(&str) -> bool,
{
    exists|b: Option<String>|
        #![trigger bundled.ensures((), b)]
        bundled.ensures((), b) && (b is None || exists|s: &str, c: Result<String, String>|
            #![trigger copy_to_cache.ensures((s,), c)]
            s@ == b.unwrap()@ && copy_to_cache.ensures((s,), c) && c is Err && make_executable.ensures((s,), false))
}

/// A lookup answered with an error.
pub open spec fn lookup_failed<K: FnOnce() -> Result<String, String>>(lookup: K) -> bool {
    exists|x: String| #![trigger lookup.ensures((), Err(x))] lookup.ensures((), Err(x))
}

/// Find the Lightroom helper: the bundled binary (copied to a writable
/// cache, or made executable in place when the copy fails), then a cached
/// download, then `npx`. Each step is a probe supplied by the caller, and a
/// later step is taken only when every earlier one failed.
pub fn resolve_lightroom_mcp<B, C, E, K, N>(
    bundled: B,
    copy_to_cache: C,
    make_executable: E,
    cached: K,
    npx: N,
) -> (r: Result<(String, String), String>)
    where
        B: FnOnce() -> Option<String>,
        C: FnOnce(&str) -> Result<String, String>,
        E: FnOnce(&str) -> bool,
        K: FnOnce() -> Result<String, String>,
        N: FnOnce() -> Result<String, String>,
    requires
        bundled.requires(()),
        forall|s: &str| #[trigger] copy_to_cache.requires((s,)),
        forall|s: &str| #[trigger] make_executable.requires((s,)),
        cached.requires(()),
        npx.requires(()),
    ensures
        r matches Ok(found) ==> found.1@ == "bundled"@ || found.1@ == "cached"@ || found.1@ == "npx"@,
        r matches Ok(found) ==> found.1@ == "bundled"@ ==> exists|b: Option<String>|
            #![trigger bundled.ensures((), b)]
            bundled.ensures((), b) && b is Some && (exists|s: &str, c: Result<String, String>|
                #![trigger copy_to_cache.ensures((s,), c)]
                s@ == b.unwrap()@ && copy_to_cache.ensures((s,), c) && ((c is Ok && found.0 == c.unwrap()) || (
                c is Err && found.0 == b.unwrap() && make_executable.ensures((s,), true)))),
        r matches Ok(found) ==> found.1@ == "cached"@ ==> bundled_unusable(bundled, copy_to_cache, make_executable)
            && cached.ensures((), Ok(found.0)),
        r matches Ok(found) ==> found.1@ == "npx"@ ==> bundled_unusable(bundled, copy_to_cache, make_executable)
            && lookup_failed(cached) && npx.ensures((), Ok(found.0)),
        r matches Err(e) ==> e@ == MISSING_HELPER@ && bundled_unusable(bundled, copy_to_cache, make_executable)
            && lookup_failed(cached) && lookup_failed(npx),
{
    proof {
        reveal_strlit("bundled");
        reveal_strlit("cached");
        reveal_strlit("npx");
        assert("bundled"@.len() != "cached"@.len() && "bundled"@.len() != "npx"@.len());
        assert("cached"@.len() != "npx"@.len());
    }
    let ghost g_bundled = bundled;
    let ghost g_copy = copy_to_cache;
    let ghost g_exec = make_executable;
    let ghost g_cached = cached;
    let ghost g_npx = npx;
    let found = bundled();
    match found {
        Some(b) => {
            let bs = b.as_str();
            let copied = copy_to_cache(bs);
            match copied {
                Ok(c) => {
                    return Ok((c, String::from_str("bundled")));
                },
                Err(_) => {
                    if make_executable(bs) {
                        return Ok((b, String::from_str("bundled")));
                    }
                    proof {
                        assert(g_copy.ensures((bs,), copied));
                        assert(g_bundled.ensures((), found));
                        assert(bundled_unusable(g_bundled, g_copy, g_exec));
                    }
                },
            }
        },
        None => {
            proof {
                assert(g_bundled.ensures((), found));
                assert(bundled_unusable(g_bundled, g_copy, g_exec));
            }
        },
    }
    let cached_result = cached();
    if let Ok(p) = cached_result {
        return Ok((p, String::from_str("cached")));
    }
    proof {
        assert(g_cached.ensures((), cached_result));
        assert(lookup_failed(g_cached));
    }
    let npx_result = npx();
    match npx_result {
        Ok(n) => Ok((n, String::from_str("npx"))),
        Err(_) => {
            proof {
                assert(g_npx.ensures((), npx_result));
                assert(lookup_failed(g_npx));
            }
            Err(String::from_str(MISSING_HELPER))
        },
    }
}

/// `is_file` reported `p` as `b`.
pub open spec fn reported<F: Fn(&str) -> bool>(is_file: F, p: Seq<char>, b: bool) -> bool {
    exists|s: &str| #[trigger] is_file.ensures((s,), b) && s@ == p
}

/// The first of `candidates` that `is_file` reports as a file.
fn first_file<F: Fn(&str) -> bool>(candidates: &[&str], is_file: &F) -> (r: Option<usize>)
    requires
        forall|s: &str| #[trigger] is_file.requires((s,)),
    ensures
        r matches Some(i) ==> i < candidates@.len() && reported(*is_file, candidates@[i as int]@, true)
            && forall|j: int| 0 <= j < i ==> reported(*is_file, #[trigger] candidates@[j]@, false),
        r is None ==> forall|j: int| 0 <= j < candidates@.len() ==> reported(*is_file, #[trigger] candidates@[j]@, false),
{
    let mut i: usize = 0;
    while i < candidates.len()
        invariant
            i <= candidates@.len(),
            forall|s: &str| #[trigger] is_file.requires((s,)),
            forall|j: int| 0 <= j < i ==> reported(*is_file, #[trigger] candidates@[j]@, false),
        decreases candidates.len() - i,
    {
        let c = candidates[i];
        if is_file(c) {
            return Some(i);
        }
        i = i + 1;
    }
    None
}

/// Where `npx` is usually installed.
pub open spec fn npx_candidates() -> Seq<Seq<char>> {
    seq!["/opt/homebrew/bin/npx"@, "/usr/local/bin/npx"@, "/opt/local/bin/npx"@]
}

/// Where `node` is usually installed.
pub open spec fn node_candidates() -> Seq<Seq<char>> {
    seq!["/opt/homebrew/bin/node"@, "/usr/local/bin/node"@, "/opt/local/bin/node"@]
}

/// Find `npx`: the first of the usual install locations that is a file,
/// otherwise the login shell's answer when it names an existing file.
pub fn resolve_npx<F, G>(is_file: F, login_shell_lookup: G) -> (r: Result<String, String>)
    where
        F: Fn(&str) -> bool,
        G: FnOnce(&str) -> Result<String, String>,
    requires
        forall|s: &str| #[trigger] is_file.requires((s,)),
        forall|s: &str| #[trigger] login_shell_lookup.requires((s,)),
    ensures
        r matches Ok(p) ==> reported(is_file, p@, true) && ((exists|i: int|
            0 <= i < 3 && p@ == #[trigger] npx_candidates()[i] && forall|j: int|
                0 <= j < i ==> reported(is_file, #[trigger] npx_candidates()[j], false)) || ((forall|j: int|
            0 <= j < 3 ==> reported(is_file, #[trigger] npx_candidates()[j], false)) && exists|s: &str|
            #![trigger login_shell_lookup.ensures((s,), Ok(p))]
            s@ == "npx"@ && login_shell_lookup.ensures((s,), Ok(p)))),
        r matches Err(e) ==> e@ == "npx not found"@ && (forall|j: int|
            0 <= j < 3 ==> reported(is_file, #[trigger] npx_candidates()[j], false)) && exists|s: &str, l: Result<String, String>|
            #![trigger login_shell_lookup.ensures((s,), l)]
            s@ == "npx"@ && login_shell_lookup.ensures((s,), l) && (l is Err || reported(is_file, l.unwrap()@, false)),
{
    let candidates = ["/opt/homebrew/bin/npx", "/usr/local/bin/npx", "/opt/local/bin/npx"];
    proof {
        assert(candidates@.map_values(|s: &str| s@) =~= npx_candidates());
    }
    match first_file(candidates.as_slice(), &is_file) {
        Some(i) => {
            let p = string_from_chars(chars_of(candidates[i]).as_slice());
            proof {
                assert(npx_candidates()[i as int] == candidates@[i as int]@);
                assert forall|j: int| 0 <= j < i implies reported(is_file, #[trigger] npx_candidates()[j], false) by {
                    assert(npx_candidates()[j] == candidates@[j]@);
                }
            }
            return Ok(p);
        },
        None => {},
    }
    proof {
        assert forall|j: int| 0 <= j < 3 implies reported(is_file, #[trigger] npx_candidates()[j], false) by {
            assert(npx_candidates()[j] == candidates@[j]@);
        }
    }
    let bin = "npx";
    let answer = login_shell_lookup(bin);
    proof {
        assert(login_shell_lookup.ensures((bin,), answer));
    }
    if let Ok(path) = answer {
        let ps = path.as_str();
        if is_file(ps) {
            return Ok(path);
        }
        proof {
            assert(is_file.ensures((ps,), false));
            assert(reported(is_file, answer.unwrap()@, false));
        }
    }
    Err(String::from_str("npx not found"))
}

/// Find `node`: the first of the usual install locations that is a file,
/// otherwise whatever the login shell lookup answers.
pub fn resolve_node<F, G>(is_file: F, login_shell_lookup: G) -> (r: Result<String, String>)
    where
        F: Fn(&str) -> bool,
        G: FnOnce(&str) -> Result<String, String>,
    requires
        forall|s: &str| #[trigger] is_file.requires((s,)),
        forall|s: &str| #[trigger] login_shell_lookup.requires((s,)),
    ensures
        ({
            ||| (r matches Ok(p) && reported(is_file, p@, true) && exists|i: int|
                0 <= i < 3 && p@ == #[trigger] node_candidates()[i] && forall|j: int|
                    0 <= j < i ==> reported(is_file, #[trigger] node_candidates()[j], false))
            ||| ((forall|j: int| 0 <= j < 3 ==> reported(is_file, #[trigger] node_candidates()[j], false))
                && exists|s: &str|
                #![trigger login_shell_lookup.ensures((s,), r)]
                s@ == "node"@ && login_shell_lookup.ensures((s,), r))
        }),
{
    let candidates = ["/opt/homebrew/bin/node", "/usr/local/bin/node", "/opt/local/bin/node"];
    proof {
        assert(candidates@.map_values(|s: &str| s@) =~= node_candidates());
    }
    match first_file(candidates.as_slice(), &is_file) {
        Some(i) => {
            let p = string_from_chars(chars_of(candidates[i]).as_slice());
            proof {
                assert(node_candidates()[i as int] == candidates@[i as int]@);
                assert forall|j: int| 0 <= j < i implies reported(is_file, #[trigger] node_candidates()[j], false) by {
                    assert(node_candidates()[j] == candidates@[j]@);
                }
            }
            return Ok(p);
        },
        None => {},
    }
    proof {
        assert forall|j: int| 0 <= j < 3 implies reported(is_file, #[trigger] node_candidates()[j], false) by {
            assert(node_candidates()[j] == candidates@[j]@);
        }
    }
    let bin = "node";
    login_shell_lookup(bin)
}


/// Interpret a login shell's `command -v bin`: a failed command or an empty
/// first line is an error; otherwise the trimmed first line is the path.
pub fn login_shell_path(bin: &str, success: bool, stdout: &str) -> (r: Result<String, String>)
    ensures
        !success ==> (r matches Err(e) && e@ == "shell lookup failed for "@ + bin@),
        success && trimmed(first_line(stdout@)).len() == 0 ==> (r matches Err(e) && e@ == bin@
            + " not found in login shell PATH"@),
        success && trimmed(first_line(stdout@)).len() > 0 ==> (r matches Ok(p) && p@ == trimmed(
            first_line(stdout@),
        )),
{
    if !success {
        let mut e = String::from_str("shell lookup failed for ");
        e.append(bin);
        return Err(e);
    }
    let path = first_line_trimmed(stdout);
    if path.unicode_len() == 0 {
        let mut e = string_from_chars(chars_of(bin).as_slice());
        e.append(" not found in login shell PATH");
        return Err(e);
    }
    Ok(path)
}

} // verus!
