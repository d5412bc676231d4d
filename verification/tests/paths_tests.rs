use aspen::paths::{
    cached_copy_is_current, helper_asset, helper_download_url, lightroom_mcp_args, login_shell_path, resolve_lightroom_mcp, resolve_node, resolve_npx, runtime_deps_status,
    HELPER_READY, MISSING_HELPER, NODE_INSTALL_URL,
};

#[test]
fn runtime_status_reports_install_url() {
    let status = runtime_deps_status(Err(MISSING_HELPER.to_string()), None, || false);
    assert!(status.node_install_url.contains("nodejs.org"));
}

#[test]
fn runtime_status_describes_the_helper() {
    let ready = runtime_deps_status(
        Ok(("/cache/lightroom-mcp".to_string(), "bundled".to_string())),
        Some("/usr/local/bin/npx".to_string()),
        || panic!("node is not asked when npx was found"),
    );
    assert!(ready.lightroom_mcp_ready);
    assert_eq!(ready.lightroom_mcp_path.as_deref(), Some("/cache/lightroom-mcp"));
    assert_eq!(ready.lightroom_mcp_source, "bundled");
    assert!(ready.node_available);
    assert_eq!(ready.message, HELPER_READY);
    assert_eq!(ready.node_install_url, NODE_INSTALL_URL);

    let missing = runtime_deps_status(Err("nope".to_string()), None, || true);
    assert!(!missing.lightroom_mcp_ready);
    assert_eq!(missing.lightroom_mcp_path, None);
    assert_eq!(missing.lightroom_mcp_source, "missing");
    assert!(missing.node_available);
    assert_eq!(missing.message, "nope");
}

#[test]
fn lightroom_args_for_npx_include_package() {
    let args = lightroom_mcp_args("npx");
    assert_eq!(args, vec!["-y", "@mskalski/lightroom-mcp"]);
    assert!(lightroom_mcp_args("bundled").is_empty());
}

#[test]
fn helper_lookup_prefers_bundled_then_cached_then_npx() {
    let r = resolve_lightroom_mcp(
        || Some("/app/bin/mcp".to_string()),
        |_: &str| Ok("/cache/mcp".to_string()),
        |_: &str| false,
        || Ok("/cache/old".to_string()),
        || Ok("npx".to_string()),
    );
    assert_eq!(r, Ok(("/cache/mcp".to_string(), "bundled".to_string())));

    let r = resolve_lightroom_mcp(
        || Some("/app/bin/mcp".to_string()),
        |_: &str| Err("read-only".to_string()),
        |_: &str| true,
        || Ok("/cache/old".to_string()),
        || Ok("npx".to_string()),
    );
    assert_eq!(r, Ok(("/app/bin/mcp".to_string(), "bundled".to_string())));

    let r = resolve_lightroom_mcp(
        || None,
        |_: &str| Err("x".to_string()),
        |_: &str| false,
        || Ok("/cache/old".to_string()),
        || Ok("npx".to_string()),
    );
    assert_eq!(r, Ok(("/cache/old".to_string(), "cached".to_string())));

    let r = resolve_lightroom_mcp(
        || None,
        |_: &str| Err("x".to_string()),
        |_: &str| false,
        || Err("none".to_string()),
        || Ok("/usr/local/bin/npx".to_string()),
    );
    assert_eq!(r, Ok(("/usr/local/bin/npx".to_string(), "npx".to_string())));

    let r = resolve_lightroom_mcp(
        || None,
        |_: &str| Err("x".to_string()),
        |_: &str| false,
        || Err("none".to_string()),
        || Err("npx not found".to_string()),
    );
    assert_eq!(r, Err(MISSING_HELPER.to_string()));
}

#[test]
fn npx_lookup_checks_usual_places_then_the_login_shell() {
    let r = resolve_npx(|p: &str| p == "/usr/local/bin/npx", |_: &str| Err("unused".to_string()));
    assert_eq!(r, Ok("/usr/local/bin/npx".to_string()));
    let r = resolve_npx(|p: &str| p == "/home/u/.nvm/bin/npx", |_: &str| Ok("/home/u/.nvm/bin/npx".to_string()));
    assert_eq!(r, Ok("/home/u/.nvm/bin/npx".to_string()));
    let r = resolve_npx(|_: &str| false, |_: &str| Ok("/gone/npx".to_string()));
    assert_eq!(r, Err("npx not found".to_string()));
}

#[test]
fn node_lookup_falls_back_to_the_login_shell_answer() {
    let r = resolve_node(|p: &str| p == "/opt/homebrew/bin/node", |_: &str| Err("unused".to_string()));
    assert_eq!(r, Ok("/opt/homebrew/bin/node".to_string()));
    let r = resolve_node(|_: &str| false, |b: &str| Err(format!("{b} missing")));
    assert_eq!(r, Err("node missing".to_string()));
}

#[test]
fn login_shell_output_is_read_from_its_first_line() {
    assert_eq!(login_shell_path("npx", true, "  /usr/bin/npx  \nsecond\n"), Ok("/usr/bin/npx".to_string()));
    assert_eq!(
        login_shell_path("npx", true, "\n/usr/bin/npx"),
        Err("npx not found in login shell PATH".to_string())
    );
    assert_eq!(login_shell_path("node", false, "/x"), Err("shell lookup failed for node".to_string()));
}

#[test]
fn helper_assets_by_architecture() {
    assert_eq!(helper_asset("aarch64"), Ok("lightroom-mcp-darwin-arm64"));
    assert_eq!(helper_asset("x86_64"), Ok("lightroom-mcp-darwin-x64"));
    assert_eq!(helper_asset("riscv64"), Err("unsupported architecture for Lightroom MCP: riscv64".to_string()));
    assert_eq!(
        helper_download_url("lightroom-mcp-darwin-x64"),
        "https://github.com/Automaat/lightroom-mcp/releases/download/v0.9.0/lightroom-mcp-darwin-x64"
    );
}

#[test]
fn cached_helper_is_reused_only_when_complete() {
    assert!(cached_copy_is_current(true, 10, 10));
    assert!(!cached_copy_is_current(true, 0, 0));
    assert!(!cached_copy_is_current(true, 9, 10));
    assert!(!cached_copy_is_current(false, 10, 10));
}

#[test]
fn helper_lookup_skips_a_bundled_helper_that_cannot_run() {
    let r = resolve_lightroom_mcp(
        || Some("/app/bin/mcp".to_string()),
        |_: &str| Err("read-only".to_string()),
        |_: &str| false,
        || Ok("/cache/old".to_string()),
        || panic!("npx is not asked when the cached helper is there"),
    );
    assert_eq!(r, Ok(("/cache/old".to_string(), "cached".to_string())));
    let r = resolve_lightroom_mcp(
        || Some("/app/bin/mcp".to_string()),
        |_: &str| Err("read-only".to_string()),
        |_: &str| false,
        || Err("no download".to_string()),
        || Ok("/opt/homebrew/bin/npx".to_string()),
    );
    assert_eq!(r, Ok(("/opt/homebrew/bin/npx".to_string(), "npx".to_string())));
}

#[test]
fn npx_lookup_asks_the_login_shell_only_when_no_usual_place_has_it() {
    let r = resolve_npx(|p: &str| p == "/opt/homebrew/bin/npx", |_: &str| -> Result<String, String> {
        panic!("the login shell is not asked")
    });
    assert_eq!(r, Ok("/opt/homebrew/bin/npx".to_string()));
    let r = resolve_npx(|_: &str| false, |b: &str| Err(format!("{b} not found in login shell PATH")));
    assert_eq!(r, Err("npx not found".to_string()));
}
