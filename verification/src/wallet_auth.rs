//! Who may use the wallet whose keys the server holds.
use crate::base64text::{base64_decode, base64_decoded};
use crate::hash::{collide, sha3_256, sha3_256_digest};
use crate::text::{
    after_prefix, begins_with, find_first, find_last, first_place, has_prefix, last_place,
    lemma_first_place, same_text, text_from_utf8,
};
use subtle::ConstantTimeEq;
use vstd::prelude::*;
use vstd::string::*;
use vstd::utf8::*;

verus! {

/// Calls `ct_eq` of `subtle::ConstantTimeEq` on two digests: whether they are the same.
#[verifier::external_body]
fn digests_ct_eq(a: &[u8; 32], b: &[u8; 32]) -> (equal: bool)
    ensures
        equal == (a@ == b@),
{
    a.ct_eq(b).into()
}

/// The two passwords have one digest.
pub open spec fn same_digest(a: Seq<char>, b: Seq<char>) -> bool {
    sha3_256(encode_utf8(a)) == sha3_256(encode_utf8(b))
}

/// Whether two passwords are the same, told by their digests in a time that does not
/// depend on where they differ.
pub fn ct_password_eq(a: &str, b: &str) -> (equal: bool)
    ensures
        equal == same_digest(a@, b@),
{
    let left: [u8; 32] = sha3_256_digest(a.as_bytes());
    let right: [u8; 32] = sha3_256_digest(b.as_bytes());
    let equal = digests_ct_eq(&left, &right);
    proof {
        if left@ == right@ {
            assert(left =~= right);
        }
    }
    equal
}

/// The check says what comparing the texts would say, unless the two texts share a digest.
pub proof fn law_password_check_is_equality(a: Seq<char>, b: Seq<char>)
    ensures
        a == b ==> same_digest(a, b),
        same_digest(a, b) ==> a == b || collide(encode_utf8(a), encode_utf8(b)),
{
    encode_utf8_decode_utf8(a);
    encode_utf8_decode_utf8(b);
    if same_digest(a, b) && a != b {
        assert(encode_utf8(a) != encode_utf8(b));
    }
}

/// How the wallet is reached.
pub struct AuthConfig {
    /// The wallet may be used at all.
    pub custodial_enabled: bool,
    /// The server listens on this machine only.
    pub loopback_bound: bool,
    /// The password, where there is one.
    pub password: Option<String>,
}

/// What is said to a request.
#[derive(Clone, Copy, Debug, PartialEq, Eq)]
pub enum AuthVerdict {
    /// It goes on.
    Welcome,
    /// The wallet is switched off.
    SwitchedOff,
    /// It was addressed to a foreign host.
    ForeignHost,
    /// The password is missing or wrong.
    Unauthorized,
}

/// A `Host` header without its port.
pub open spec fn host_name(header: Seq<char>) -> Seq<char> {
    match last_place(header, ':') {
        Some(i) => header.take(i),
        None => header,
    }
}

/// The names of this machine.
pub open spec fn is_local_name(host: Seq<char>) -> bool {
    host == "127.0.0.1"@ || host == "localhost"@ || host == "[::1]"@ || host == "::1"@
}

/// The `Host` header names this machine.
pub open spec fn host_is_local(header: Option<Seq<char>>) -> bool {
    match header {
        Some(h) => is_local_name(host_name(h)),
        None => false,
    }
}

/// The text of an optional header.
pub open spec fn header_text(header: Option<&str>) -> Option<Seq<char>> {
    match header {
        Some(h) => Some(h@),
        None => None,
    }
}

fn addressed_to_this_machine(header: Option<&str>) -> (local: bool)
    ensures
        local == host_is_local(header_text(header)),
{
    match header {
        None => false,
        Some(h) => {
            let host: &str = match find_last(h, ':') {
                Some(i) => {
                    let host = h.substring_char(0, i);
                    proof {
                        assert(host@ =~= h@.take(i as int));
                    }
                    host
                },
                None => h,
            };
            same_text(host, "127.0.0.1") || same_text(host, "localhost") || same_text(host, "[::1]")
                || same_text(host, "::1")
        },
    }
}

/// The password in decoded credentials: what follows the first colon.
pub open spec fn password_in(decoded: Option<Seq<u8>>) -> Option<Seq<char>> {
    match decoded {
        Some(bytes) => if valid_utf8(bytes) {
            let text = decode_utf8(bytes);
            match first_place(text, ':') {
                Some(i) => Some(text.skip(i + 1)),
                None => None,
            }
        } else {
            None
        },
        None => None,
    }
}

/// The password in decoded credentials.
pub fn password_from(decoded: Option<Vec<u8>>) -> (password: Option<String>)
    ensures
        match password {
            Some(p) => decoded is Some && password_in(Some(decoded->0@)) == Some(p@),
            None => decoded is None || password_in(Some(decoded->0@)) is None,
        },
{
    let bytes = match decoded {
        Some(b) => b,
        None => return None,
    };
    let ghost raw = bytes@;
    let text = match text_from_utf8(bytes) {
        Some(t) => t,
        None => return None,
    };
    proof {
        encode_utf8_decode_utf8(text@);
        encode_utf8_valid_utf8(text@);
    }
    let n: usize = text.as_str().unicode_len();
    match find_first(text.as_str(), ':') {
        Some(i) => {
            assert(i < n);
            Some(after_prefix(text.as_str(), i + 1).to_owned())
        },
        None => None,
    }
}

/// Credentials are a name without a colon, a colon and the password; any name will do.
pub proof fn law_credentials_hold_the_password(name: Seq<char>, password: Seq<char>)
    requires
        first_place(name, ':') is None,
    ensures
        password_in(Some(encode_utf8(name + seq![':'] + password))) == Some(password),
{
    let text = name + seq![':'] + password;
    encode_utf8_decode_utf8(text);
    encode_utf8_valid_utf8(text);
    lemma_first_place(text, ':');
    lemma_first_place(name, ':');
    assert(text[name.len() as int] == ':');
    match first_place(text, ':') {
        Some(i) => {
            if i < name.len() {
                assert(text[i] == name[i]);
            }
            assert(text.skip(i + 1) =~= password);
        },
        None => {},
    }
}

/// The credentials in an `Authorization` header, decoded.
pub open spec fn credentials_in(header: Option<Seq<char>>) -> Option<Seq<u8>> {
    match header {
        Some(h) => if begins_with(h, "Basic "@) {
            match base64_decoded(h.skip(6)) {
                Ok(bytes) => Some(bytes),
                Err(e) => None,
            }
        } else {
            None
        },
        None => None,
    }
}

fn decode_credentials(header: Option<&str>) -> (decoded: Option<Vec<u8>>)
    ensures
        match decoded {
            Some(b) => credentials_in(header_text(header)) == Some(b@),
            None => credentials_in(header_text(header)) is None,
        },
{
    match header {
        None => None,
        Some(h) => {
            if !has_prefix(h, "Basic ") {
                return None;
            }
            proof {
                reveal_strlit("Basic ");
            }
            match base64_decode(after_prefix(h, 6)) {
                Ok(b) => Some(b),
                Err(e) => None,
            }
        },
    }
}

/// What is said to a request that was addressed to `host` and gave the password
/// `provided`.
pub open spec fn verdict(
    config: AuthConfig,
    host: Option<Seq<char>>,
    provided: Option<Seq<char>>,
) -> AuthVerdict {
    if !config.custodial_enabled {
        AuthVerdict::SwitchedOff
    } else if config.loopback_bound && !host_is_local(host) {
        AuthVerdict::ForeignHost
    } else if config.password is None || (provided is Some && same_digest(
        provided->0,
        config.password->0@,
    )) {
        AuthVerdict::Welcome
    } else {
        AuthVerdict::Unauthorized
    }
}

/// What is said to a request that was addressed to `host` and gave the password
/// `provided`.
pub fn judge(config: &AuthConfig, host: Option<&str>, provided: Option<String>) -> (said: AuthVerdict)
    ensures
        said == verdict(
            *config,
            header_text(host),
            match provided {
                Some(p) => Some(p@),
                None => None,
            },
        ),
{
    if !config.custodial_enabled {
        return AuthVerdict::SwitchedOff;
    }
    if config.loopback_bound && !addressed_to_this_machine(host) {
        return AuthVerdict::ForeignHost;
    }
    match &config.password {
        None => AuthVerdict::Welcome,
        Some(expected) => match provided {
            None => AuthVerdict::Unauthorized,
            Some(p) => if ct_password_eq(p.as_str(), expected.as_str()) {
                AuthVerdict::Welcome
            } else {
                AuthVerdict::Unauthorized
            },
        },
    }
}

/// What is said to a request with these `Host` and `Authorization` headers.
pub fn require_auth(config: &AuthConfig, host: Option<&str>, authorization: Option<&str>) -> (said:
    AuthVerdict)
    ensures
        said == verdict(
            *config,
            header_text(host),
            password_in(credentials_in(header_text(authorization))),
        ),
{
    let decoded = decode_credentials(authorization);
    judge(config, host, password_from(decoded))
}

/// Where a password is set, only a request that gives it is welcome, unless the text
/// that it gives shares its digest.
pub proof fn law_only_the_password_opens(
    config: AuthConfig,
    host: Option<Seq<char>>,
    provided: Option<Seq<char>>,
)
    requires
        config.password is Some,
        verdict(config, host, provided) == AuthVerdict::Welcome,
    ensures
        provided == Some(config.password->0@) || (provided is Some && collide(
            encode_utf8(provided->0),
            encode_utf8(config.password->0@),
        )),
{
    law_password_check_is_equality(provided->0, config.password->0@);
}

/// A server that listens on this machine only welcomes nothing that was addressed to
/// another host, whatever the password.
pub proof fn law_foreign_hosts_are_turned_away(
    config: AuthConfig,
    host: Option<Seq<char>>,
    provided: Option<Seq<char>>,
)
    requires
        config.loopback_bound,
        !host_is_local(host),
    ensures
        verdict(config, host, provided) != AuthVerdict::Welcome,
{
}

/// How the wallet is reached when it listens at `bind`: whether it is exposed, whether it
/// is bound to this machine, and whether the wallet whose keys it holds may be used.
pub fn exposure(bind: &str, has_password: bool) -> (how: (bool, bool, bool))
    ensures
        how.0 == (bind@ != "127.0.0.1"@ && bind@ != "localhost"@),
        how.1 == (bind@ == "127.0.0.1"@ || bind@ == "localhost"@ || bind@ == "::1"@),
        how.2 == (!how.0 || has_password),
{
    let local = same_text(bind, "127.0.0.1") || same_text(bind, "localhost");
    (!local, local || same_text(bind, "::1"), local || has_password)
}

} // verus!
