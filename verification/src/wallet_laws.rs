//! What the wallet owes its users: who is let in, how often, under which keys, and what is said.
use crate::base64text::{base64, base64_decoded};
use crate::codec::{le_bytes, lemma_le_bytes_len, lemma_le_round_trip, lemma_pow256};
use crate::hash::{sha256, sha384, sha3_256};
use crate::hextext::hex_chars;
use crate::keystore::{
    aes_gcm_opened, aes_gcm_sealed, argon2_key, fault_text, opened, opened_bytes, sealed_backup,
    Fault, Field, KeystoreData, CIPHER, KDF, KEYSTORE_VERSION, SEAL_LIMIT,
};
use crate::layout_laws::number_at;
use crate::pubkey::{base58_decoded, Pubkey, PubkeyError};
use crate::qr::{picture_answer, QR_DARK, QR_LIGHT, QR_SIDE};
use crate::text::{decimal, first_place, last_place, lemma_last_place, trimmed};
use crate::wallet_api::{
    clean_name, entry_says, fee_of, is_success, node_refusal, too_large, txid_too_often, ApiError,
    NameError, Relay, TransferError, MAX_RELAY_BODY,
};
use crate::wallet_assets::{filled_page, fingerprint, integrity, replaced, script_path};
use crate::wallet_auth::{
    credentials_in, host_is_local, host_name, is_local_name, password_in, same_digest, verdict,
    AuthConfig,
};
use crate::wallet_client::{client_bytes, client_of, last_hop, limit_for, ClientIp, Entry};
use crate::wallet_derive::{
    account_seed, address_named, balance_seed, derivation, is_reason, pda_derivation, Role,
    ACCOUNT_DOMAIN, PDA_DOMAIN, PROGRAM_DOMAIN, STAKE_DOMAIN,
};
use crate::wallet_limit::{request, swept, Counts, Window};
use vstd::prelude::*;
use vstd::string::*;
use vstd::utf8::*;

verus! {

/// A window of ten seconds is still open.
pub open spec fn open_window(w: Window, now: u64) -> bool {
    now < w.start || now - w.start < 10_000_000_000
}

/// How often a key was counted in its window that is still open.
pub open spec fn counted(c: Counts, key: [u8; 32], now: u64) -> int {
    if c.windows.contains_key(key) && open_window(c.windows[key], now) {
        c.windows[key].count as int
    } else {
        0
    }
}

/// Where fewer keys are counted than there is room for, a request is let through exactly where
/// its key was counted fewer times than the limit in its open window, and counts once more in
/// it, or in a new one that starts now. All other keys stay as they are.
pub proof fn law_requests_are_counted(c: Counts, key: [u8; 32], limit: u32, now: u64)
    requires
        c.windows.len() < 100_000,
    ensures
        ({
            let r = request(c, key, limit, now);
            let n = counted(c, key, now);
            &&& n < u32::MAX ==> (r.1 <==> n < limit)
            &&& r.0.windows.contains_key(key)
            &&& n < u32::MAX ==> r.0.windows[key].count == n + 1
            &&& n == u32::MAX ==> r.0.windows[key].count == u32::MAX
            &&& r.0.windows[key].start == if c.windows.contains_key(key) && open_window(
                c.windows[key],
                now,
            ) {
                c.windows[key].start
            } else {
                now
            }
            &&& r.0.last_gc == c.last_gc
            &&& forall|k: [u8; 32]|
                k != key ==> (#[trigger] r.0.windows.contains_key(k) <==> c.windows.contains_key(k))
                    && (c.windows.contains_key(k) ==> r.0.windows[k] == c.windows[k])
        }),
{
}

/// Where as many keys are counted as there is room for, those whose windows are over are
/// forgotten first, at most once a second. A key that then still finds no room is turned away
/// and not counted.
pub proof fn law_full_counts_are_swept(c: Counts, key: [u8; 32], limit: u32, now: u64)
    requires
        c.windows.len() >= 100_000,
    ensures
        ({
            let due = now >= c.last_gc && now - c.last_gc >= 1_000_000_000;
            let s = swept(c, now);
            &&& !due ==> s == c
            &&& due ==> s.last_gc == now && forall|k: [u8; 32]|
                (#[trigger] s.windows.contains_key(k) <==> c.windows.contains_key(k) && open_window(
                    c.windows[k],
                    now,
                )) && (s.windows.contains_key(k) ==> s.windows[k] == c.windows[k])
            &&& s.windows.len() >= 100_000 && !s.windows.contains_key(key) ==> request(
                c,
                key,
                limit,
                now,
            ) == (s, false)
            &&& s.windows.len() < 100_000 ==> request(c, key, limit, now) == request(
                s,
                key,
                limit,
                now,
            )
        }),
{
}

/// Who a request comes from: its peer; and where a proxy on this machine is trusted, whom that
/// names as connecting, or else as the last hop.
pub proof fn law_clients_are_told_apart(
    trust_proxy: bool,
    peer: ClientIp,
    connecting: Option<ClientIp>,
    hop: Option<ClientIp>,
)
    ensures
        ({
            let here = match peer {
                ClientIp::V4(a) => a@[0] == 127,
                ClientIp::V6(a) => a@[15] == 1 && forall|i: int|
                    0 <= i < 15 ==> #[trigger] a@[i] == 0,
            };
            let r = client_of(trust_proxy, peer, connecting, hop);
            &&& !trust_proxy || !here ==> r == Some(peer)
            &&& trust_proxy && here && connecting is Some ==> r == connecting
            &&& trust_proxy && here && connecting is None ==> r == hop
        }),
{
    match peer {
        ClientIp::V4(a) => {},
        ClientIp::V6(a) => {
            assert(forall|i: int| 0 <= i < 15 ==> a[i] == #[trigger] a@[i]);
            assert(forall|i: int| 0 <= i < 15 ==> #[trigger] a[i] == a@[i]);
        },
    }
}

/// A client counts under its address: a four or a six, the address, and zeros.
pub proof fn law_clients_count_under_their_addresses(ip: ClientIp)
    ensures
        client_bytes(ip).len() == 32,
        match ip {
            ClientIp::V4(a) => client_bytes(ip)[0] == 4 && client_bytes(ip).subrange(1, 5) == a@
                && forall|i: int| 5 <= i < 32 ==> #[trigger] client_bytes(ip)[i] == 0,
            ClientIp::V6(a) => client_bytes(ip)[0] == 6 && client_bytes(ip).subrange(1, 17) == a@
                && forall|i: int| 17 <= i < 32 ==> #[trigger] client_bytes(ip)[i] == 0,
        },
{
    match ip {
        ClientIp::V4(a) => {
            assert(client_bytes(ip).subrange(1, 5) =~= a@);
        },
        ClientIp::V6(a) => {
            assert(client_bytes(ip).subrange(1, 17) =~= a@);
        },
    }
}

/// The last hop of a header is what stands after its last comma, or all of it, without the
/// space around it.
pub proof fn law_last_hops(front: Seq<char>, hop: Seq<char>)
    requires
        !hop.contains(','),
    ensures
        last_hop(front.push(',') + hop) == trimmed(hop),
        last_hop(hop) == trimmed(hop),
{
    let s = front.push(',') + hop;
    let n = front.len() as int;
    lemma_last_place(s, ',');
    lemma_last_place(hop, ',');
    assert(s[n] == ',');
    assert(last_place(s, ',') is Some);
    let i = last_place(s, ',')->0;
    assert(i == n) by {
        if i > n {
            assert(s[i] == hop[i - n - 1]);
            assert(hop.contains(','));
        }
    }
    assert(s.skip(n + 1) =~= hop);
}

/// How many requests a client has: what was configured, unless it is zero. A public wallet has
/// at least five, and eight where nothing was configured; another one then has no limit.
pub proof fn law_limits_are_as_configured(public: bool, configured: Option<u32>)
    ensures
        !public && (configured is None || configured == Some(0u32)) ==> limit_for(
            public,
            configured,
        ) is None,
        public && (configured is None || configured == Some(0u32)) ==> limit_for(public, configured)
            == Some(8u32),
        configured matches Some(n) ==> {
            &&& n > 0 && !public ==> limit_for(public, configured) == Some(n)
            &&& n >= 5 && public ==> limit_for(public, configured) == Some(n)
            &&& 0 < n < 5 && public ==> limit_for(public, configured) == Some(5u32)
        },
{
}

/// Who may use the wallets that are kept here. Nobody where that is switched off; where the
/// wallet listens only to this machine, nobody whose header names another host; and else
/// everybody, where no password is set, or whoever brings it.
pub proof fn law_who_is_welcome(
    config: AuthConfig,
    host: Option<Seq<char>>,
    provided: Option<Seq<char>>,
)
    ensures
        ({
            let r = verdict(config, host, provided);
            let foreign = config.loopback_bound && !(host matches Some(h) && is_local_name(
                host_name(h),
            ));
            let knows = config.password matches Some(p) ==> (provided matches Some(given) && sha3_256(
                encode_utf8(given),
            ) == sha3_256(encode_utf8(p@)));
            &&& !config.custodial_enabled ==> r is SwitchedOff
            &&& config.custodial_enabled && foreign ==> r is ForeignHost
            &&& config.custodial_enabled && !foreign && knows ==> r is Welcome
            &&& config.custodial_enabled && !foreign && !knows ==> r is Unauthorized
        }),
{
}

/// The names of this machine, and the host in a header: what stands before the last colon.
pub proof fn law_names_of_this_machine(name: Seq<char>, port: Seq<char>)
    requires
        !port.contains(':'),
    ensures
        is_local_name(name) <==> name == "127.0.0.1"@ || name == "localhost"@ || name == "[::1]"@
            || name == "::1"@,
        host_name(name.push(':') + port) == name,
        host_name(port) == port,
        host_is_local(None) == false,
{
    let s = name.push(':') + port;
    let n = name.len() as int;
    lemma_last_place(s, ':');
    lemma_last_place(port, ':');
    assert(s[n] == ':');
    assert(last_place(s, ':') is Some);
    let i = last_place(s, ':')->0;
    assert(i == n) by {
        if i > n {
            assert(s[i] == port[i - n - 1]);
            assert(port.contains(':'));
        }
    }
    assert(s.take(n) =~= name);
}

/// The password in a header: base64 after `Basic `, text in it, and in that what stands after
/// the first colon.
pub proof fn law_passwords_in_headers(
    rest: Seq<char>,
    bytes: Seq<u8>,
    user: Seq<char>,
    password: Seq<char>,
)
    ensures
        credentials_in(None) is None,
        credentials_in(Some("Basic "@ + rest)) == match base64_decoded(rest) {
            Ok(b) => Some(b),
            Err(e) => None,
        },
        password_in(None) is None,
        !valid_utf8(bytes) ==> password_in(Some(bytes)) is None,
        valid_utf8(bytes) && !user.contains(':') && decode_utf8(bytes) == user.push(':') + password
            ==> password_in(Some(bytes)) == Some(password),
        valid_utf8(bytes) && !decode_utf8(bytes).contains(':') ==> password_in(Some(bytes)) is None,
{
    reveal_strlit("Basic ");
    let h = "Basic "@ + rest;
    assert(h.take(6) =~= "Basic "@);
    assert(h.skip(6) =~= rest);
    let text = decode_utf8(bytes);
    crate::text::lemma_first_place(text, ':');
    if !user.contains(':') && text == user.push(':') + password {
        let n = user.len() as int;
        assert(text[n] == ':');
        let i = first_place(text, ':')->0;
        assert(i == n) by {
            if i < n {
                assert(user[i] == text[i]);
                assert(user.contains(':'));
            }
        }
        assert(text.skip(n + 1) =~= password);
    }
}

/// Two texts are taken for the same where their hashes are.
pub proof fn law_texts_are_compared_by_their_hashes(a: Seq<char>, b: Seq<char>)
    ensures
        same_digest(a, b) <==> sha3_256(encode_utf8(a)) == sha3_256(encode_utf8(b)),
{
}

/// A mark is replaced wherever it stands, from the left, and everything else stays.
pub proof fn law_marks_are_replaced(text: Seq<char>, from: Seq<char>, to: Seq<char>, c: char)
    requires
        from.len() > 0,
    ensures
        replaced(Seq::empty(), from, to) == Seq::<char>::empty(),
        replaced(from + text, from, to) == to + replaced(text, from, to),
        !((seq![c] + text).len() >= from.len() && (seq![c] + text).subrange(0, from.len() as int)
            == from) ==> replaced(seq![c] + text, from, to) == seq![c] + replaced(text, from, to),
{
    let s = from + text;
    assert(s.take(from.len() as int) =~= from);
    assert(s.skip(from.len() as int) =~= text);
    let t = seq![c] + text;
    assert(t.skip(1) =~= text);
    if t.len() >= from.len() {
        assert(t.take(from.len() as int) =~= t.subrange(0, from.len() as int));
    }
}

/// A script goes under the first twelve digits of its hash, and the page that calls it names its
/// path and its digest.
pub proof fn law_pages_name_their_scripts(
    page: Seq<char>,
    path_mark: Seq<char>,
    path: Seq<char>,
    digest_mark: Seq<char>,
    script: Seq<u8>,
    prefix: Seq<char>,
)
    ensures
        integrity(script) == "sha384-"@ + base64(sha384(script)),
        fingerprint(script) == hex_chars(sha256(script)@),
        fingerprint(script).len() == 64,
        script_path(prefix, script) == prefix + hex_chars(sha256(script)@).subrange(0, 12)
            + ".js"@,
        filled_page(page, path_mark, path, digest_mark, script) == replaced(
            replaced(page, path_mark, path),
            digest_mark,
            "sha384-"@ + base64(sha384(script)),
        ),
{
    assert(hex_chars(sha256(script)@).subrange(0, 12) =~= hex_chars(sha256(script)@).take(12));
}

/// What keys are derived from: what they are for, in words, the seed, and the index in four
/// bytes. The account of index zero is the seed itself.
pub proof fn law_derivations(domain: Seq<char>, seed: [u8; 32], index: u32)
    ensures
        ({
            let s = derivation(domain, seed, index);
            let n = encode_utf8(domain).len() as int;
            &&& s.len() == n + 36
            &&& s.subrange(0, n) == encode_utf8(domain)
            &&& s.subrange(n, n + 32) == seed@
            &&& number_at(s, n + 32, 4) == index
        }),
        account_seed(seed, 0) == seed,
        index > 0 ==> account_seed(seed, index) == sha3_256(
            derivation("qchain-account-v1"@, seed, index),
        ),
        ACCOUNT_DOMAIN@ == "qchain-account-v1"@,
        STAKE_DOMAIN@ == "qchain-stake-account-v1"@,
        PROGRAM_DOMAIN@ == "qchain-program-account-v1"@,
        PDA_DOMAIN@ == "qchain-program-pda-v1"@,
{
    let s = derivation(domain, seed, index);
    let n = encode_utf8(domain).len() as int;
    lemma_le_bytes_len(index as nat, 4);
    lemma_pow256();
    lemma_le_round_trip(index as nat, 4);
    assert(s.subrange(0, n) =~= encode_utf8(domain));
    assert(s.subrange(n, n + 32) =~= seed@);
    assert(s.subrange(n + 32, n + 36) =~= le_bytes(index as nat, 4));
}

/// What the address of a program's account is derived from: what it is for, in words, the program
/// and the seed; for the balance of a holder that is a one and the holder.
pub proof fn law_program_accounts(program: Pubkey, seed: Seq<u8>, holder: Pubkey)
    ensures
        pda_derivation(program, seed) == encode_utf8("qchain-program-pda-v1"@) + (program.0@
            + seed),
        balance_seed(holder).len() == 33,
        balance_seed(holder)[0] == 1,
        balance_seed(holder).subrange(1, 33) == holder.0@,
{
    assert(pda_derivation(program, seed) =~= encode_utf8("qchain-program-pda-v1"@) + (program.0@
        + seed));
    assert(balance_seed(holder).subrange(1, 33) =~= holder.0@);
}

/// A typed address is one exactly where it is thirty-two bytes in base58, with or without space
/// around it; otherwise the reason is told.
pub proof fn law_typed_addresses(text: Seq<char>, key: Pubkey, reason: PubkeyError)
    ensures
        base58_decoded(trimmed(text)) == Ok::<Seq<u8>, Seq<char>>(key.0@) ==> address_named(text)
            == Some(key),
        address_named(text) is Some <==> (base58_decoded(trimmed(text)) matches Ok(b) && b.len()
            == 32),
        is_reason(reason, text) ==> match base58_decoded(trimmed(text)) {
            Ok(b) => b.len() != 32 && reason.said()
                == "invalid pubkey: expected 32 bytes, got "@ + decimal(b.len()),
            Err(words) => reason.said() == words,
        },
{
    if base58_decoded(trimmed(text)) == Ok::<Seq<u8>, Seq<char>>(key.0@) {
        assert(key.0@.subrange(0, 32) =~= key.0@);
        crate::pubkey::lemma_key_at(key, key.0@, 0);
    }
}

/// How an address that is none is told, by what it was for.
pub proof fn law_address_complaints()
    ensures
        Role::Validator.complaint() == "validator address invalid: "@,
        Role::StakeAccount.complaint() == "stake account address invalid: "@,
        Role::Position.complaint() == "position address invalid: "@,
        Role::Proposal.complaint() == "proposal address invalid: "@,
        Role::Destination.complaint() == "destination address invalid: "@,
        Role::Program.complaint() == "program address invalid: "@,
        Role::ProgramId.complaint() == "program id invalid: "@,
        Role::Account.complaint() == "account address invalid: "@,
        Role::Holder.complaint() == "dirección de titular inválida: "@,
{
}

/// A backup is sealed with the key that its password and its salt give, under its nonce, and
/// opened with the same; the text is told exactly where the seal holds and what was sealed is
/// text.
pub proof fn law_backups_open(
    salt: Seq<u8>,
    nonce: Seq<u8>,
    sealed: Seq<u8>,
    password: Seq<char>,
)
    ensures
        ({
            let r = opened_bytes(salt, nonce, sealed, password);
            let p = encode_utf8(password);
            let possible = p.len() <= u32::MAX && 8 <= salt.len() <= u32::MAX;
            let plain = aes_gcm_opened(argon2_key(p, salt), nonce, sealed);
            &&& r is Ok <==> nonce.len() == 12 && possible && plain is Some && valid_utf8(plain->0)
            &&& r matches Ok(text) ==> text == decode_utf8(plain->0)
            &&& nonce.len() != 12 ==> r == Err::<Seq<char>, Fault>(Fault::NonceLength)
            &&& nonce.len() == 12 && !possible ==> r == Err::<Seq<char>, Fault>(
                Fault::KeyDerivation(
                    if p.len() > u32::MAX {
                        "password is too long"@
                    } else if salt.len() < 8 {
                        "salt is too short"@
                    } else {
                        "salt is too long"@
                    },
                ),
            )
            &&& nonce.len() == 12 && possible && plain is None ==> r == Err::<Seq<char>, Fault>(
                Fault::Rejected,
            )
            &&& nonce.len() == 12 && possible && plain is Some && !valid_utf8(plain->0) ==> r
                == Err::<Seq<char>, Fault>(Fault::NotText)
        }),
{
}

/// The fields of a backup are base64; the first that is missing or is none is told, in the order
/// salt, nonce, ciphertext.
pub proof fn law_backup_fields(backup: KeystoreData, password: Seq<char>)
    ensures
        ({
            let r = opened(backup, password);
            &&& backup.salt is None ==> r == Err::<Seq<char>, Fault>(Fault::Missing(Field::Salt))
            &&& backup.salt matches Some(s) ==> match base64_decoded(s) {
                Err(e) => r == Err::<Seq<char>, Fault>(Fault::NotBase64(e)),
                Ok(salt) => {
                    &&& backup.nonce is None ==> r == Err::<Seq<char>, Fault>(
                        Fault::Missing(Field::Nonce),
                    )
                    &&& backup.nonce matches Some(n) ==> match base64_decoded(n) {
                        Err(e) => r == Err::<Seq<char>, Fault>(Fault::NotBase64(e)),
                        Ok(nonce) => {
                            &&& backup.ciphertext is None ==> r == Err::<Seq<char>, Fault>(
                                Fault::Missing(Field::Ciphertext),
                            )
                            &&& backup.ciphertext matches Some(c) ==> match base64_decoded(c) {
                                Err(e) => r == Err::<Seq<char>, Fault>(Fault::NotBase64(e)),
                                Ok(sealed) => r == opened_bytes(salt, nonce, sealed, password),
                            }
                        },
                    }
                },
            }
        }),
{
}

/// What a backup holds.
pub proof fn law_backups_hold_what_was_sealed(
    plain: Seq<char>,
    password: Seq<char>,
    salt: Seq<u8>,
    nonce: Seq<u8>,
)
    ensures
        ({
            let b = sealed_backup(plain, password, salt, nonce);
            &&& b.salt == Some(base64(salt))
            &&& b.nonce == Some(base64(nonce))
            &&& b.ciphertext == Some(
                base64(
                    aes_gcm_sealed(
                        argon2_key(encode_utf8(password), salt),
                        nonce,
                        encode_utf8(plain),
                    ),
                ),
            )
        }),
        KEYSTORE_VERSION == 1,
        KDF@ == "argon2id"@,
        CIPHER@ == "aes-256-gcm"@,
        SEAL_LIMIT == 68_719_476_736,
{
}

/// How faults of backups are told.
pub proof fn law_backup_faults_are_told(reason: Seq<char>)
    ensures
        fault_text(Fault::Missing(Field::Salt)) == "keystore sin campo '"@ + "salt"@ + "'"@,
        fault_text(Fault::Missing(Field::Nonce)) == "keystore sin campo '"@ + "nonce"@ + "'"@,
        fault_text(Fault::Missing(Field::Ciphertext)) == "keystore sin campo '"@ + "ciphertext"@
            + "'"@,
        fault_text(Fault::NotBase64(reason)) == "base64 inválido: "@ + reason,
        fault_text(Fault::NonceLength) == "nonce de tamaño inválido"@,
        fault_text(Fault::KeyDerivation(reason)) == "derivación de clave falló: "@ + reason,
        fault_text(Fault::Sealing) == "cifrado falló"@,
        fault_text(Fault::Rejected) == "contraseña incorrecta o archivo dañado"@,
        fault_text(Fault::NotText) == "el contenido descifrado no es texto válido"@,
        fault_text(Fault::NoRandomness) == "no hay números aleatorios"@,
{
}

/// A name is taken, without the space around it, exactly where it has one to sixty-four bytes,
/// all of them letters, digits, underscores and hyphens.
pub proof fn law_names_are_cleaned(typed: Seq<char>)
    ensures
        ({
            let name = trimmed(typed);
            let n = encode_utf8(name).len();
            let plain = forall|i: int|
                0 <= i < name.len() ==> ('a' <= #[trigger] name[i] <= 'z') || ('A' <= name[i] <= 'Z')
                    || ('0' <= name[i] <= '9') || name[i] == '_' || name[i] == '-';
            &&& 1 <= n <= 64 && plain ==> clean_name(typed) == Ok::<Seq<char>, NameError>(name)
            &&& !(1 <= n <= 64) ==> clean_name(typed) == Err::<Seq<char>, NameError>(
                NameError::Length,
            )
            &&& 1 <= n <= 64 && !plain ==> clean_name(typed) == Err::<Seq<char>, NameError>(
                NameError::Character,
            )
        }),
        NameError::Length.said() == "el nombre de la wallet debe tener entre 1 y 64 caracteres"@,
        NameError::Character.said() == "el nombre solo puede tener letras, números, '_' y '-'"@,
{
}

/// A fee is as many times the base fee as there are bytes, up to the largest number.
pub proof fn law_fees_grow_with_the_size(base_fee: u64, size: u64)
    ensures
        base_fee * size <= u64::MAX ==> fee_of(base_fee, size) == base_fee * size,
        base_fee * size > u64::MAX ==> fee_of(base_fee, size) == u64::MAX,
{
}

/// What is said about transfers and bodies that are not forwarded.
pub proof fn law_refusals_are_told(e: PubkeyError, size: nat)
    ensures
        TransferError::Recipient(e).said() == "dirección destino inválida: "@ + e.said(),
        TransferError::NotANumber.said() == "el monto debe ser un número entero de unidades"@,
        TransferError::Zero.said() == "el monto debe ser mayor que cero"@,
        MAX_RELAY_BODY == 262_144,
        too_large(size) == "transacción demasiado grande ("@ + decimal(size) + " bytes, máximo "@
            + decimal(262_144) + ")"@,
        txid_too_often(Relay::Send)
            == "esta transacción se está enviando demasiado seguido - probá en unos segundos"@,
        txid_too_often(Relay::Simulate)
            == "simulación: esta transacción se está simulando demasiado seguido - probá en unos segundos"@,
{
}

/// What is said to a request that is not let in.
pub proof fn law_entries_are_told(relay: Relay, client: Option<ClientIp>)
    ensures
        entry_says(relay, Entry::Pass(client)) is None,
        entry_says(relay, Entry::NoPeer) == Some("no se pudo determinar la IP del cliente"@),
        entry_says(relay, Entry::NoClient) == Some(
            "no se pudo identificar el cliente de forma confiable detrás del proxy"@,
        ),
        entry_says(Relay::Send, Entry::TooOften) == Some(
            "demasiadas transacciones desde tu IP - probá de nuevo en unos segundos"@,
        ),
        entry_says(Relay::Simulate, Entry::TooOften) == Some(
            "simulación: demasiadas solicitudes desde tu IP - probá de nuevo en unos segundos"@,
        ),
{
}

/// How a refusal of the node is passed on: its limit as a limit, with its words or with ours
/// where it has none, and everything else as the fault of the request.
pub proof fn law_refusals_of_the_node(status: u16, said: Seq<char>)
    ensures
        is_success(status) <==> 200 <= status <= 299,
        status == 429 && said.len() > 0 ==> node_refusal(Relay::Send, status, said) == (
            429u16,
            said,
        ) && node_refusal(Relay::Simulate, status, said) == (429u16, said),
        status == 429 && said.len() == 0 ==> node_refusal(Relay::Send, status, said) == (
            429u16,
            "el nodo alcanzó su límite de solicitudes - probá en unos segundos"@,
        ) && node_refusal(Relay::Simulate, status, said) == (
            429u16,
            "simulación: límite de solicitudes del nodo alcanzado"@,
        ),
        status != 429 ==> node_refusal(Relay::Send, status, said) == (
            400u16,
            "el nodo rechazó la transacción: "@ + said,
        ) && node_refusal(Relay::Simulate, status, said) == (
            400u16,
            "el nodo no pudo simular la transacción: "@ + said,
        ),
{
}

/// The picture of a code is answered as it was drawn, and why it was not, as the fault of the
/// request.
pub proof fn law_pictures_are_answered(
    drawn: Result<Seq<char>, Seq<char>>,
    answer: Result<String, ApiError>,
)
    requires
        picture_answer(drawn, answer),
    ensures
        drawn matches Ok(svg) ==> (answer matches Ok(t) && t@ == svg),
        drawn matches Err(reason) ==> (answer matches Err(e) && e.status == 400 && e.message@
            == "no se pudo generar el QR: "@ + reason),
        QR_SIDE == 220,
        QR_DARK@ == "#111827"@,
        QR_LIGHT@ == "#ffffff"@,
{
}

} // verus!
