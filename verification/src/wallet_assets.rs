//! The scripts and pages that the wallet serves, and the digests that a browser checks
//! them by.
use crate::base64text::{base64, base64_encode};
use crate::hash::{sha256, sha256_digest, sha384, sha384_digest};
use crate::hextext::{hex_chars, hex_encode};
use crate::text::{begins_with, has_prefix, joined};
use vstd::prelude::*;
use vstd::string::*;
use vstd::utf8::*;

verus! {

/// `text` with every `from` replaced by `to`, read from the front.
pub open spec fn replaced(text: Seq<char>, from: Seq<char>, to: Seq<char>) -> Seq<char>
    decreases text.len(),
{
    if text.len() == 0 || from.len() == 0 {
        text
    } else if begins_with(text, from) {
        to + replaced(text.skip(from.len() as int), from, to)
    } else {
        seq![text[0]] + replaced(text.skip(1), from, to)
    }
}

/// Calls `str::replace`: every match of a text that is not empty is replaced, from the
/// front and without overlaps.
#[verifier::external_body]
fn replace_text(text: &str, from: &str, to: &str) -> (out: String)
    requires
        from@.len() > 0,
    ensures
        out@ == replaced(text@, from@, to@),
{
    text.replace(from, to)
}

/// The digest of a script in the form that a page names it by.
pub open spec fn integrity(bytes: Seq<u8>) -> Seq<char> {
    "sha384-"@ + base64(sha384(bytes))
}

/// The digest of a file in hexadecimal digits.
pub open spec fn fingerprint(bytes: Seq<u8>) -> Seq<char> {
    hex_chars(sha256(bytes)@)
}

/// The path of a script: its name, the first 12 digits of its digest and `.js`.
pub open spec fn script_path(prefix: Seq<char>, bytes: Seq<u8>) -> Seq<char> {
    prefix + fingerprint(bytes).take(12) + ".js"@
}

/// A page whose placeholders for the script's path and digest are filled in.
pub open spec fn filled_page(
    page: Seq<char>,
    path_mark: Seq<char>,
    path: Seq<char>,
    digest_mark: Seq<char>,
    script: Seq<u8>,
) -> Seq<char> {
    replaced(replaced(page, path_mark, path), digest_mark, integrity(script))
}

fn integrity_text(bytes: &[u8]) -> (text: String)
    ensures
        text@ == integrity(bytes@),
{
    let digest = sha384_digest(bytes);
    joined("sha384-", base64_encode(digest.as_slice()).as_str())
}

fn fingerprint_text(bytes: &[u8]) -> (text: String)
    ensures
        text@ == fingerprint(bytes@),
        text@.len() == 64,
{
    let digest: [u8; 32] = sha256_digest(bytes);
    hex_encode(digest.as_slice())
}

fn path_text(prefix: &str, fingerprint: &str) -> (text: String)
    requires
        fingerprint@.len() == 64,
    ensures
        text@ == prefix@ + fingerprint@.take(12) + ".js"@,
{
    let short = fingerprint.substring_char(0, 12);
    proof {
        assert(short@ =~= fingerprint@.take(12));
    }
    joined(joined(prefix, short).as_str(), ".js")
}

/// What is served and what it is checked by.
pub struct AssetHashes {
    pub app_js_url: String,
    pub app_js_sri: String,
    pub app_js_sha256: String,
    pub glue_sha256: String,
    pub wasm_sha256: String,
    pub html: String,
    pub custodial_html: String,
}

/// The digests of the scripts, and the two pages with them filled in.
pub fn asset_hashes(
    app_js: &str,
    custodial_js: &str,
    wallet_html: &str,
    custodial_html: &str,
    glue_js: &str,
    wasm: &[u8],
) -> (assets: AssetHashes)
    ensures
        assets.app_js_url@ == script_path("/app/app-"@, encode_utf8(app_js@)),
        assets.app_js_sri@ == integrity(encode_utf8(app_js@)),
        assets.app_js_sha256@ == fingerprint(encode_utf8(app_js@)),
        assets.glue_sha256@ == fingerprint(encode_utf8(glue_js@)),
        assets.wasm_sha256@ == fingerprint(wasm@),
        assets.html@ == filled_page(
            wallet_html@,
            "__APP_JS_SRC__"@,
            assets.app_js_url@,
            "__APP_JS_SRI__"@,
            encode_utf8(app_js@),
        ),
        assets.custodial_html@ == filled_page(
            custodial_html@,
            "__CUSTODIAL_JS_SRC__"@,
            script_path("/app/custodial-"@, encode_utf8(custodial_js@)),
            "__CUSTODIAL_JS_SRI__"@,
            encode_utf8(custodial_js@),
        ),
{
    proof {
        reveal_strlit("__APP_JS_SRC__");
        reveal_strlit("__APP_JS_SRI__");
        reveal_strlit("__CUSTODIAL_JS_SRC__");
        reveal_strlit("__CUSTODIAL_JS_SRI__");
    }
    let app_js_sha256 = fingerprint_text(app_js.as_bytes());
    let app_js_url = path_text("/app/app-", app_js_sha256.as_str());
    let app_js_sri = integrity_text(app_js.as_bytes());
    let custodial_sha256 = fingerprint_text(custodial_js.as_bytes());
    let custodial_url = path_text("/app/custodial-", custodial_sha256.as_str());
    let custodial_sri = integrity_text(custodial_js.as_bytes());
    let html = replace_text(wallet_html, "__APP_JS_SRC__", app_js_url.as_str());
    let page = replace_text(custodial_html, "__CUSTODIAL_JS_SRC__", custodial_url.as_str());
    AssetHashes {
        html: replace_text(html.as_str(), "__APP_JS_SRI__", app_js_sri.as_str()),
        custodial_html: replace_text(
            page.as_str(),
            "__CUSTODIAL_JS_SRI__",
            custodial_sri.as_str(),
        ),
        app_js_url,
        app_js_sri,
        app_js_sha256,
        glue_sha256: fingerprint_text(glue_js.as_bytes()),
        wasm_sha256: fingerprint_text(wasm),
    }
}

/// The scripts that are served under a name of their own.
#[derive(Clone, Copy, Debug, PartialEq, Eq)]
pub enum Script {
    Custodial,
    App,
}

/// The script that a name stands for.
pub fn app_js(name: &str) -> (script: Option<Script>)
    ensures
        script == if begins_with(name@, "custodial-"@) {
            Some(Script::Custodial)
        } else if begins_with(name@, "app-"@) {
            Some(Script::App)
        } else {
            None
        },
{
    if has_prefix(name, "custodial-") {
        Some(Script::Custodial)
    } else if has_prefix(name, "app-") {
        Some(Script::App)
    } else {
        None
    }
}

} // verus!
