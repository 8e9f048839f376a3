use aes_gcm::aead::Aead;
use aes_gcm::KeyInit;
use base64::Engine;
use qchain::keystore::{backup_password_will_do, decrypt, encrypt, opened_text, seal, seal_drawn, Field, Keystore, KeystoreError, KEYSTORE_VERSION};
use qchain::keys::Keypair;
use qchain::proposal::{ProposalAction, RiskTier};
use qchain::pubkey::Pubkey;
use qchain::qr::{answer_with, qr_code};
use qchain::text::{parse_number, parse_signed_number, split_at_commas, trim, NumberFault};
use qchain::wallet_api::{
    check_profile, check_relay, entry_answer, faucet_answer, faucet_target, import_contents, max_amount, relay_answer, sanitize_name,
    switches_on, transfer_answer, transfer_terms, wallet_file, NameError, ProfileError, Relay, TransferError, MAX_RELAY_BODY,
};
use qchain::wallet_assets::{app_js, asset_hashes, Script};
use qchain::wallet_auth::{ct_password_eq, exposure, password_from, require_auth, AuthConfig, AuthVerdict};
use qchain::wallet_client::{meter_request, resolve_client_ip, rightmost_hop, ClientIp, Entry, SimRateLimiter};
use qchain::wallet_derive::{
    derive_account_seed, program_address_from_seed, program_pda, stake_address_from_seed, token_balance_pda, Role,
};
use qchain::wallet_limit::{WindowMap, DEFAULT_SIM_PER_IP_10S, MAX_TRACKED_KEYS, MIN_SIM_PER_IP_10S, RL_WINDOW, SWEEP_PAUSE};
use qchain::wallet_requests::{
    call_instruction, delegate_instruction_data, deploy_program_instruction_data, request_instruction, transfer_instruction_data, Ask,
    AskError,
};
use sha2::{Digest, Sha256, Sha384};
use sha3::Sha3_256;

#[test]
fn round_trips_with_the_right_password() {
    let secret = "{\"key\":\"super-secret-keypair\"}";
    let ks = encrypt(secret, "clave-fuerte-123").unwrap();
    assert_eq!(KEYSTORE_VERSION, 1);
    for part in [&ks.salt, &ks.nonce, &ks.ciphertext] {
        assert!(!part.as_ref().unwrap().contains("super-secret"));
    }
    let sealed = base64::engine::general_purpose::STANDARD.decode(ks.ciphertext.as_ref().unwrap()).unwrap();
    assert_eq!(sealed.len(), secret.len() + 16);
    assert!(!sealed.windows(12).any(|w| w == b"super-secret"));
    let back = decrypt(&ks, "clave-fuerte-123").unwrap();
    assert_eq!(back, secret);
}

#[test]
fn wrong_password_is_rejected() {
    let ks = encrypt("secreto", "correcta").unwrap();
    assert!(decrypt(&ks, "incorrecta").is_err());
}

#[test]
fn a_backup_that_lacks_something_is_refused_in_words() {
    let text = |s: &str| Some(s.to_string());
    let none = Keystore { salt: None, nonce: text("AAAA"), ciphertext: text("AAAA") };
    let refused = decrypt(&none, "x").unwrap_err();
    assert!(matches!(refused, KeystoreError::Missing(Field::Salt)));
    assert_eq!(refused.message(), "keystore sin campo 'salt'");
    let odd = Keystore { salt: text("!"), nonce: text("AAAA"), ciphertext: text("AAAA") };
    assert!(matches!(decrypt(&odd, "x"), Err(KeystoreError::NotBase64(_))));
    let short = Keystore { salt: text("AAAAAAAAAAAAAAAAAAAAAA=="), nonce: text("AAAA"), ciphertext: text("AAAA") };
    assert!(matches!(decrypt(&short, "x"), Err(KeystoreError::NonceLength)));
    assert!(matches!(opened_text(None), Err(KeystoreError::Rejected)));
    assert!(matches!(opened_text(Some(vec![0xFF])), Err(KeystoreError::NotText)));
    assert_eq!(opened_text(Some(b"hi".to_vec())).unwrap(), "hi");
    let refused = seal("x", "y", &[1, 2, 3], &[0u8; 12]).err().unwrap();
    assert!(matches!(refused, KeystoreError::KeyDerivation(_)));
    assert_eq!(refused.message(), "derivación de clave falló: salt is too short");
    assert!(matches!(seal_drawn("x", "y", None, Some(vec![0u8; 12])), Err(KeystoreError::NoRandomness)));
    assert!(matches!(seal_drawn("x", "y", Some(vec![1u8; 16]), None), Err(KeystoreError::NoRandomness)));
    assert_eq!(KeystoreError::NoRandomness.message(), "no hay números aleatorios");
    let drawn = seal_drawn("x", "y", Some(vec![1u8; 16]), Some(vec![2u8; 12])).unwrap();
    let given = seal("x", "y", &[1u8; 16], &[2u8; 12]).unwrap();
    assert_eq!(drawn.ciphertext, given.ciphertext);
    assert!(!backup_password_will_do("12345"));
    assert!(backup_password_will_do("123456"));
}

#[test]
fn a_sealed_text_is_what_the_ciphers_make_of_it() {
    let backup = seal("plain", "password", &[7u8; 16], &[9u8; 12]).unwrap();
    let mut key = [0u8; 32];
    argon2::Argon2::default().hash_password_into(b"password", &[7u8; 16], &mut key).unwrap();
    let cipher = aes_gcm::Aes256Gcm::new(aes_gcm::Key::<aes_gcm::Aes256Gcm>::from_slice(&key));
    let expected = cipher.encrypt(aes_gcm::Nonce::from_slice(&[9u8; 12]), b"plain".as_slice()).unwrap();
    assert_eq!(backup.ciphertext.unwrap(), base64::engine::general_purpose::STANDARD.encode(expected));
}

#[test]
fn constant_time_password_check_matches_string_equality() {
    assert!(ct_password_eq("hunter2", "hunter2"));
    assert!(!ct_password_eq("hunter2", "hunter3"));
    assert!(!ct_password_eq("hunter2", "hunter2 "));
    assert!(!ct_password_eq("", "hunter2"));
    assert!(!ct_password_eq("hunter2", ""));
    assert!(ct_password_eq("", ""));
    assert!(!ct_password_eq("a", "aaaaaaaaaaaaaaaaaaaaaaaaaaaaaaaa"));
}

fn for_wallet(exposed: bool, trust_proxy: bool, per_ip: Option<u32>) -> Option<SimRateLimiter> {
    SimRateLimiter::for_wallet(exposed, trust_proxy, per_ip, 0)
}

#[test]
fn for_wallet_is_mandatory_when_reachable_by_remotes() {
    assert_eq!(for_wallet(true, false, None).unwrap().ip_limit(), DEFAULT_SIM_PER_IP_10S);
    assert_eq!(for_wallet(true, false, Some(0)).unwrap().ip_limit(), DEFAULT_SIM_PER_IP_10S, "0 -> default");
    assert_eq!(for_wallet(true, false, Some(2)).unwrap().ip_limit(), MIN_SIM_PER_IP_10S, "too low -> floor");
    assert_eq!(for_wallet(true, false, Some(9)).unwrap().ip_limit(), 9, "honoured above floor");
    let p = for_wallet(false, true, None).unwrap();
    assert_eq!(p.ip_limit(), DEFAULT_SIM_PER_IP_10S);
    assert!(p.trust_proxy());
    assert!(for_wallet(false, false, None).is_none(), "private loopback unset -> off");
    assert!(for_wallet(false, false, Some(0)).is_none());
    assert_eq!(for_wallet(false, false, Some(3)).unwrap().ip_limit(), 3, "opt-in honoured verbatim");
}

#[test]
fn per_ip_and_per_txid_are_window_only() {
    let mut rl = SimRateLimiter::new(3, 2, false, 0);
    let a = ClientIp::V4([10, 0, 0, 1]);
    let b = ClientIp::V4([10, 0, 0, 2]);
    assert!(rl.allow_ip(a, 1) && rl.allow_ip(a, 2) && rl.allow_ip(a, 3), "up to cap");
    assert!(!rl.allow_ip(a, 4), "over cap rejected");
    assert!(!rl.allow_ip(a, 5), "still over in this window");
    assert!(rl.allow_ip(b, 6), "a separate IP is unaffected");
    let t1 = [1u8; 32];
    let t2 = [2u8; 32];
    assert!(rl.allow_txid(t1, 7) && rl.allow_txid(t1, 8), "up to txid cap");
    assert!(!rl.allow_txid(t1, 9), "over txid cap");
    assert!(rl.allow_txid(t2, 10), "a different txid unaffected");
    assert!(rl.allow_ip(a, 1 + RL_WINDOW), "the next window starts anew");
}

fn ip(text: &str) -> Option<ClientIp> {
    let parts: Vec<u8> = text.split('.').filter_map(|p| p.parse().ok()).collect();
    parts.try_into().ok().map(ClientIp::V4)
}

#[test]
fn resolve_client_ip_trusts_headers_only_from_a_loopback_proxy_and_fails_closed() {
    let loop_peer = ip("127.0.0.1").unwrap();
    let remote_peer = ip("198.51.100.2").unwrap();
    let cf = ip("203.0.113.9");
    let xff_ip = ip("203.0.113.77");
    let resolve = |trust: bool, peer: ClientIp, cf: Option<&str>, xff: Option<&str>| {
        resolve_client_ip(trust, peer, cf.and_then(ip), xff.map(rightmost_hop).and_then(ip))
    };
    let h = (Some("203.0.113.9"), Some("203.0.113.77"));
    assert_eq!(resolve(true, loop_peer, h.0, h.1), cf, "CF header preferred");
    assert_eq!(resolve(true, loop_peer, None, Some("1.2.3.4, 203.0.113.77")), xff_ip, "rightmost XFF hop, spoof-resistant");
    assert_eq!(resolve(true, loop_peer, None, None), None, "no client identity -> fail closed");
    assert_eq!(resolve(true, loop_peer, Some("not-an-ip"), None), None, "garbage header -> fail closed");
    assert_eq!(resolve(true, remote_peer, h.0, h.1), Some(remote_peer), "direct remote: header ignored");
    assert_eq!(resolve(false, remote_peer, h.0, h.1), Some(remote_peer));
    assert_eq!(resolve(false, loop_peer, h.0, h.1), Some(loop_peer));
}

#[test]
fn addresses_of_this_machine_are_known() {
    assert!(ClientIp::V4([127, 9, 9, 9]).is_loopback());
    assert!(!ClientIp::V4([128, 0, 0, 1]).is_loopback());
    let mut local = [0u8; 16];
    local[15] = 1;
    assert!(ClientIp::V6(local).is_loopback());
    assert!(!ClientIp::V6([0u8; 16]).is_loopback());
    assert_ne!(ClientIp::V4([0; 4]).key(), ClientIp::V6([0; 16]).key());
}

#[test]
fn a_limiter_with_too_many_keys_turns_new_ones_away_until_it_is_swept() {
    let mut map = WindowMap::new(0);
    let key = |n: usize| {
        let mut k = [0u8; 32];
        k[..8].copy_from_slice(&(n as u64).to_be_bytes());
        k
    };
    for n in 0..MAX_TRACKED_KEYS {
        assert!(map.allow(key(n), 1, 0));
    }
    assert!(!map.allow(key(MAX_TRACKED_KEYS), 1, SWEEP_PAUSE / 2), "full: new keys fail closed");
    assert!(map.allow(key(MAX_TRACKED_KEYS), 1, RL_WINDOW + 1), "swept");
}

#[test]
fn clients_are_metered_at_the_door() {
    let client = ClientIp::V4([203, 0, 113, 7]);
    let proxy = ClientIp::V4([127, 0, 0, 1]);
    let mut limiter = Some(SimRateLimiter::new(2, 20, true, 0));
    assert_eq!(meter_request(&mut limiter, Some(proxy), Some(client), None, 1), Entry::Pass(Some(client)));
    assert_eq!(meter_request(&mut limiter, Some(proxy), Some(client), None, 2), Entry::Pass(Some(client)));
    assert_eq!(meter_request(&mut limiter, Some(proxy), Some(client), None, 3), Entry::TooOften);
    let other = ClientIp::V4([198, 51, 100, 4]);
    assert_eq!(meter_request(&mut limiter, Some(proxy), Some(other), None, 4), Entry::Pass(Some(other)));
    assert_eq!(meter_request(&mut limiter, Some(proxy), None, None, 5), Entry::NoClient);
    assert_eq!(meter_request(&mut limiter, None, None, None, 6), Entry::NoPeer);
    let refused = entry_answer(Relay::Simulate, Entry::TooOften).unwrap_err();
    assert_eq!(refused.status, 429);
    assert_eq!(refused.message, "simulación: demasiadas solicitudes desde tu IP - probá de nuevo en unos segundos");
    assert_eq!(entry_answer(Relay::Send, Entry::NoClient).unwrap_err().status, 429);
    assert_eq!(entry_answer(Relay::Send, Entry::NoPeer).unwrap_err().status, 429);
    assert_eq!(entry_answer(Relay::Send, Entry::Pass(Some(client))).unwrap(), Some(client));
}

#[test]
fn only_the_password_opens_the_wallet() {
    let config = AuthConfig { custodial_enabled: true, loopback_bound: false, password: Some("hunter2".to_string()) };
    let header = |user: &str| format!("Basic {}", base64::engine::general_purpose::STANDARD.encode(user));
    assert_eq!(require_auth(&config, None, Some(&header("me:hunter2"))), AuthVerdict::Welcome);
    assert_eq!(require_auth(&config, None, Some(&header("me:hunter3"))), AuthVerdict::Unauthorized);
    assert_eq!(require_auth(&config, None, Some(&header("hunter2"))), AuthVerdict::Unauthorized);
    assert_eq!(require_auth(&config, None, Some("Basic !!")), AuthVerdict::Unauthorized);
    assert_eq!(require_auth(&config, None, None), AuthVerdict::Unauthorized);
    assert_eq!(password_from(Some(b"me:a:b".to_vec())).unwrap(), "a:b");
    assert!(password_from(Some(vec![b':', 0xFF])).is_none());
    let off = AuthConfig { custodial_enabled: false, loopback_bound: false, password: None };
    assert_eq!(require_auth(&off, None, None), AuthVerdict::SwitchedOff);
    let local = AuthConfig { custodial_enabled: true, loopback_bound: true, password: None };
    assert_eq!(require_auth(&local, Some("localhost:8080"), None), AuthVerdict::Welcome);
    assert_eq!(require_auth(&local, Some("evil.example:8080"), None), AuthVerdict::ForeignHost);
    assert_eq!(exposure("127.0.0.1", false), (false, true, true));
    assert_eq!(exposure("0.0.0.0", false), (true, false, false));
    assert_eq!(exposure("0.0.0.0", true), (true, false, true));
    assert_eq!(exposure("::1", false), (true, true, false));
}

#[test]
fn names_of_wallets_stay_in_their_folder() {
    assert_eq!(sanitize_name(" main_1-x ").unwrap(), "main_1-x");
    assert!(matches!(sanitize_name("../x"), Err(NameError::Character)));
    assert!(matches!(sanitize_name("   "), Err(NameError::Length)));
    assert!(matches!(sanitize_name(&"a".repeat(65)), Err(NameError::Length)));
    assert_eq!(wallet_file("a").unwrap(), "a.json");
    assert_eq!(NameError::Length.answer().message, "el nombre de la wallet debe tener entre 1 y 64 caracteres");
    assert_eq!(NameError::Length.answer().status, 400);
}

#[test]
fn the_most_that_can_be_sent_leaves_the_fee() {
    assert_eq!(max_amount(1_000, 2, 100), (200, 800));
    assert_eq!(max_amount(100, 2, 100), (200, 0));
    assert_eq!(max_amount(100, u64::MAX, 2), (u64::MAX, 0));
    let to = Keypair::generate().unwrap().pubkey();
    assert_eq!(transfer_terms(&to.to_string(), " 5 ").unwrap(), (to, 5));
    assert!(matches!(transfer_terms(&to.to_string(), "0"), Err(TransferError::Zero)));
    assert!(matches!(transfer_terms(&to.to_string(), "-5"), Err(TransferError::NotANumber)));
    let wrong = transfer_terms("11", "5").unwrap_err();
    assert_eq!(wrong.answer().message, "dirección destino inválida: invalid pubkey: expected 32 bytes, got 2");
}

#[test]
fn relayed_transactions_are_limited_in_size_and_number() {
    let mut off = None;
    let refused = check_relay(Relay::Send, MAX_RELAY_BODY + 1, &mut off, None, 0).unwrap_err();
    assert_eq!(refused.message, "transacción demasiado grande (262145 bytes, máximo 262144)");
    assert!(check_relay(Relay::Send, MAX_RELAY_BODY, &mut off, None, 0).is_ok());
    let mut limiter = Some(SimRateLimiter::new(8, 1, false, 0));
    assert!(check_relay(Relay::Simulate, 10, &mut limiter, Some([1u8; 32]), 1).is_ok());
    let often = check_relay(Relay::Simulate, 10, &mut limiter, Some([1u8; 32]), 2).unwrap_err();
    assert_eq!(often.status, 429);
    assert!(relay_answer(Relay::Send, 200, "").is_ok());
    assert_eq!(relay_answer(Relay::Send, 429, "x").unwrap_err().status, 429);
    let refused = relay_answer(Relay::Send, 400, "nonce").unwrap_err();
    assert_eq!(refused.message, "el nodo rechazó la transacción: nonce");
    assert!(transfer_answer(204, "").is_ok());
    for status in [199u16, 300, 400, 429, 500] {
        let refused = transfer_answer(status, "nonce").unwrap_err();
        assert_eq!((refused.status, refused.message.as_str()), (400, "el nodo rechazó la transacción: nonce"));
    }
    let refused = relay_answer(Relay::Simulate, 500, "nonce").unwrap_err();
    assert_eq!(refused.message, "el nodo no pudo simular la transacción: nonce");
}

#[test]
fn faucets_are_asked_at_their_address() {
    let key = Keypair::generate().unwrap().pubkey().to_string();
    assert_eq!(faucet_target(Some("http://f"), &key).unwrap(), "http://f/faucet");
    assert_eq!(faucet_target(None, &key).unwrap_err().message, "no hay faucet configurado en esta wallet");
    assert!(faucet_target(Some("http://f"), "11").is_err());
    assert!(faucet_answer(200, "ok").is_ok());
    assert_eq!(faucet_answer(400, "").unwrap_err().message, "el faucet rechazó el pedido");
    assert_eq!(faucet_answer(400, "later").unwrap_err().message, "later");
}

#[test]
fn backups_are_imported_with_their_password_or_as_they_are() {
    assert_eq!(import_contents(None, "plain", None).unwrap(), "plain");
    let backup = encrypt("secret", "12345678").unwrap();
    let asked = import_contents(Some(Keystore { salt: None, nonce: None, ciphertext: None }), "{}", None).unwrap_err();
    assert_eq!(asked.message, "este respaldo está cifrado - hace falta la contraseña que usaste al descargarlo");
    assert_eq!(import_contents(Some(backup), "{}", Some("12345678")).unwrap(), "secret");
}

#[test]
fn profiles_and_switches_are_read() {
    assert!(check_profile(None, false).is_ok());
    assert!(matches!(check_profile(Some("mainnet"), false), Err(ProfileError::NeedsProxy)));
    assert!(check_profile(Some("mainnet"), true).is_ok());
    assert!(check_profile(Some("testnet"), false).is_ok());
    assert!(matches!(check_profile(Some("other"), true), Err(ProfileError::Unknown)));
    assert!(switches_on(" yes ") && switches_on("1") && switches_on("TRUE") && !switches_on("True"));
}

#[test]
fn pages_name_their_scripts_by_what_is_in_them() {
    let page = "<script src=\"__APP_JS_SRC__\" integrity=\"__APP_JS_SRI__\">";
    let custodial = "<script src=\"__CUSTODIAL_JS_SRC__\" integrity=\"__CUSTODIAL_JS_SRI__\">";
    let a = asset_hashes("app()", "custodial()", page, custodial, "glue()", b"wasm");
    let sha = |b: &[u8]| hex::encode(Sha256::digest(b));
    assert_eq!(a.app_js_sha256, sha(b"app()"));
    assert_eq!(a.glue_sha256, sha(b"glue()"));
    assert_eq!(a.wasm_sha256, sha(b"wasm"));
    let sri = format!("sha384-{}", base64::engine::general_purpose::STANDARD.encode(Sha384::digest(b"app()")));
    assert_eq!(a.app_js_sri, sri);
    assert!(a.app_js_url.starts_with("/app/app-") && a.app_js_url.ends_with(".js"));
    assert_eq!(a.html, format!("<script src=\"{}\" integrity=\"{sri}\">", a.app_js_url));
    assert!(a.custodial_html.contains("/app/custodial-") && !a.custodial_html.contains("__"));
    let name = a.app_js_url.strip_prefix("/app/").unwrap();
    assert!(matches!(app_js(name), Some(Script::App)));
    assert!(matches!(app_js("custodial-0123456789abcdef.js"), Some(Script::Custodial)));
    assert!(app_js("other.js").is_none());
}

#[test]
fn account_zero_is_the_master_and_higher_accounts_are_distinct_and_recoverable() {
    let master = [7u8; 32];
    assert_eq!(derive_account_seed(&master, 0), master);
    assert_ne!(derive_account_seed(&master, 1), master);
    assert_ne!(derive_account_seed(&master, 1), derive_account_seed(&master, 2));
    assert_eq!(derive_account_seed(&master, 5), derive_account_seed(&master, 5));
    assert_ne!(derive_account_seed(&master, 1), derive_account_seed(&[8u8; 32], 1));
    assert_ne!(derive_account_seed(&master, 1).to_vec(), stake_address_from_seed(&master, 1).into_bytes());
}

#[test]
fn stake_address_is_deterministic_and_index_separated() {
    let seed = [7u8; 32];
    assert_eq!(stake_address_from_seed(&seed, 0), stake_address_from_seed(&seed, 0));
    assert_ne!(stake_address_from_seed(&seed, 0), stake_address_from_seed(&seed, 1));
    assert_ne!(stake_address_from_seed(&seed, 0), stake_address_from_seed(&[8u8; 32], 0));
}

#[test]
fn program_address_is_deterministic_index_separated_and_distinct_from_wallet_and_stake() {
    let seed = [7u8; 32];
    assert_eq!(program_address_from_seed(&seed, 0), program_address_from_seed(&seed, 0));
    assert_ne!(program_address_from_seed(&seed, 0), program_address_from_seed(&seed, 1));
    assert_ne!(program_address_from_seed(&seed, 0), program_address_from_seed(&[8u8; 32], 0));
    assert_ne!(program_address_from_seed(&seed, 0), stake_address_from_seed(&seed, 0));
}

#[test]
fn program_pda_is_deterministic_and_separated_by_program_and_seed() {
    let prog_a = program_address_from_seed(&[7u8; 32], 0);
    let prog_b = program_address_from_seed(&[8u8; 32], 0);
    let pda = |p: &str, s: &[u8]| program_pda(p, s).unwrap();
    assert_eq!(pda(&prog_a, b"global"), pda(&prog_a, b"global"));
    assert_ne!(pda(&prog_a, b"global"), pda(&prog_a, b"other"));
    assert_ne!(pda(&prog_a, b"global"), pda(&prog_b, b"global"));
    assert_ne!(pda(&prog_a, b"global"), prog_a);
    assert!(program_pda("not-base58!!", b"x").is_err());
}

#[test]
fn deploy_and_call_requests_name_what_they_are_about() {
    let seed = [7u8; 32];
    let prog = program_address_from_seed(&seed, 0);
    let payer = Pubkey::new([1u8; 32]);
    let module = vec![0x00u8, 0x61, 0x73, 0x6d, 0x01, 0x00, 0x00, 0x00];
    let dep = request_instruction(payer, Ask::Deploy { program: &prog, module: &module, entry_point: "run" }).unwrap();
    assert_eq!(dep.accounts, vec![prog.parse().unwrap()]);
    let mut expected = vec![2u8];
    expected.extend_from_slice(&borsh::to_vec(&module).unwrap());
    expected.extend_from_slice(&borsh::to_vec("run").unwrap());
    assert_eq!(dep.data, expected);
    assert_eq!(deploy_program_instruction_data(&module, "run"), expected);
    let call = call_instruction(&prog, &prog, "1,2,3").unwrap();
    assert_eq!(call.program_id, prog.parse().unwrap());
    assert_eq!(call.data, [1i64.to_le_bytes(), 2i64.to_le_bytes(), 3i64.to_le_bytes()].concat());
    assert!(call_instruction("not-an-address", "", "").is_err());
    let bad = call_instruction(&prog, "", "abc").unwrap_err();
    assert!(matches!(bad, AskError::CallArgument(ref a, NumberFault::InvalidDigit) if a == "abc"));
    for text in ["abc", "-", "+", "1.5", "9223372036854775808", "-9223372036854775809", "99999999999999999999x", "--1"] {
        let reason = text.parse::<i64>().unwrap_err();
        let said = call_instruction(&prog, "", text).unwrap_err().message();
        assert_eq!(said, format!("arg '{text}' is not an i64: {reason}"));
    }
    let reason = Pubkey::parse("zz!").unwrap_err().message();
    let said = call_instruction(&prog, "zz!", "").unwrap_err().message();
    assert_eq!(said, format!("account address 'zz!' invalid: {reason}"));
}

#[test]
fn addresses_are_hashes_of_a_domain_a_seed_and_a_number() {
    let hash = |parts: &[&[u8]]| -> [u8; 32] { Sha3_256::digest(parts.concat()).into() };
    let seed = [7u8; 32];
    assert_eq!(derive_account_seed(&seed, 1), hash(&[b"qchain-account-v1", &seed, &1u32.to_le_bytes()]));
    let stake = hash(&[b"qchain-stake-account-v1", &seed, &3u32.to_le_bytes()]);
    assert_eq!(stake_address_from_seed(&seed, 3), bs58::encode(stake).into_string());
    let program = Pubkey::new([4u8; 32]);
    let pda = hash(&[b"qchain-program-pda-v1", &[4u8; 32], b"global"]);
    assert_eq!(program_pda(&program.to_string(), b"global").unwrap(), bs58::encode(pda).into_string());
    let holder = Pubkey::new([5u8; 32]);
    assert_ne!(token_balance_pda(&program.to_string(), &holder.to_string()).unwrap(), bs58::encode(pda).into_string());
    let refused = token_balance_pda(&program.to_string(), "11").unwrap_err();
    assert!(matches!(refused.role, Role::Holder));
    assert_eq!(refused.message(), "dirección de titular inválida: invalid pubkey: expected 32 bytes, got 2");
}

#[test]
fn requests_go_to_the_programs_they_are_for() {
    let payer = Pubkey::new([1u8; 32]);
    let other = Pubkey::new([99u8; 32]);
    let text = other.to_string();
    let sent = request_instruction(payer, Ask::Transfer { to: &text, amount: 7 }).unwrap();
    assert_eq!((sent.program_id, sent.accounts.clone()), (Pubkey::system_program_id(), vec![payer, other]));
    assert_eq!(sent.data, transfer_instruction_data(7));
    assert_eq!(sent.data, vec![1, 7, 0, 0, 0, 0, 0, 0, 0]);
    let delegated = request_instruction(payer, Ask::Delegate { validator: &text, amount: 7, stake_account: &text }).unwrap();
    assert_eq!(delegated.data, delegate_instruction_data(&[99u8; 32], 7));
    assert_eq!(delegated.data[0], 0);
    assert_eq!(delegated.accounts[..2], [payer, other]);
    let claimed = request_instruction(payer, Ask::ClaimReward { stake_account: &text }).unwrap();
    assert_eq!(claimed.data, vec![2]);
    let undone = request_instruction(payer, Ask::Undelegate { stake_account: &text }).unwrap();
    assert_eq!(undone.data, vec![1]);
    let staked = request_instruction(payer, Ask::Stake { position: &text, amount: 1 }).unwrap();
    assert_eq!(staked.data, vec![0, 1, 0, 0, 0, 0, 0, 0, 0]);
    let more = request_instruction(payer, Ask::IncreaseStake { position: &text, amount: 1 }).unwrap();
    assert_eq!(more.data[0], 1);
    let less = request_instruction(payer, Ask::BeginUnstake { position: &text, amount: 1 }).unwrap();
    assert_eq!((less.data[0], less.accounts.len()), (2, 5));
    let out = request_instruction(payer, Ask::WithdrawUnbonded { position: &text }).unwrap();
    assert_eq!(out.data, vec![3]);
    let vote = |choice: u8| request_instruction(payer, Ask::Vote { proposal: &text, stake_account: &text, choice });
    assert_eq!(vote(2).unwrap().data, vec![1, 2]);
    assert_eq!(vote(3).unwrap_err().message(), "vote choice must be 0=Yes, 1=No, or 2=Abstain");
    assert_eq!(request_instruction(payer, Ask::Finalize { proposal: &text }).unwrap().data, vec![2]);
    let run = |registry: bool| request_instruction(payer, Ask::Execute { proposal: &text, registry }).unwrap();
    assert_eq!(run(true).data, vec![3]);
    assert_ne!(run(true).accounts, run(false).accounts);
    let reason = Pubkey::parse("zz!").unwrap_err().message();
    let wrong = request_instruction(payer, Ask::ClaimReward { stake_account: "zz!" }).unwrap_err();
    assert!(wrong.message().ends_with(&reason));
    let wrong = call_instruction("zz!", "", "").unwrap_err();
    assert!(wrong.message().ends_with(&reason));
    let wrong = program_pda("zz!", b"global").unwrap_err();
    assert!(wrong.message().ends_with(&reason));
    let wrong = request_instruction(payer, Ask::Transfer { to: "11", amount: 7 }).unwrap_err();
    assert_eq!(wrong.message(), "destination address invalid: invalid pubkey: expected 32 bytes, got 2");
}

#[test]
fn proposals_are_described() {
    assert_eq!(ProposalAction::SetBaseFeePerByte(7).label(), "Fijar fee base por byte = 7");
    assert_eq!(ProposalAction::SetEmissionApr(70).label(), "Fijar emisión (APR) = 70 bps");
    let activate = ProposalAction::ActivateAlgorithm { name: "x".to_string(), algorithm: 3 };
    assert_eq!(activate.label(), "Activar algoritmo x (id 3)");
    assert_eq!(RiskTier::Economic.label(), "economic");
    assert!(RiskTier::Registry.is_registry() && !RiskTier::Low.is_registry());
}

#[test]
fn numbers_and_lists_are_read_as_they_are_written() {
    assert_eq!(parse_number("18446744073709551615"), Some(u64::MAX));
    assert_eq!(parse_number("18446744073709551616"), None);
    assert_eq!(parse_number("+5"), Some(5));
    assert_eq!(parse_number(""), None);
    assert_eq!(parse_number("5a"), None);
    assert_eq!(parse_signed_number("-9223372036854775808"), Some(i64::MIN));
    assert_eq!(parse_signed_number("9223372036854775808"), None);
    assert_eq!(parse_signed_number("-"), None);
    assert_eq!(split_at_commas(" a, ,b,"), vec!["a", "b"]);
    assert_eq!(trim("\t x y\n"), "x y");
}

#[test]
fn an_address_becomes_a_picture() {
    let key = Pubkey::new([7u8; 32]).to_string();
    let svg = qr_code(&key).unwrap();
    assert!(svg.starts_with("<?xml") && svg.ends_with("</svg>"));
    assert!(svg.contains("fill=\"#111827\"") && svg.contains("fill=\"#ffffff\""));
    assert_ne!(svg, qr_code(&Pubkey::new([8u8; 32]).to_string()).unwrap());
    let refused = qr_code(&"x".repeat(5_000)).unwrap_err();
    assert_eq!((refused.status, refused.message.as_str()), (400, "no se pudo generar el QR: data too long"));
    assert_eq!(answer_with(Ok("svg".to_string())).unwrap(), "svg");
}
