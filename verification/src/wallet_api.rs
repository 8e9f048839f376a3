//! What the wallet's web interface decides: names, amounts, what is forwarded to the node
//! and what is answered.
use crate::keystore::{decrypt, fault_text, opened, Keystore};
use crate::pubkey::{base58_decoded, Pubkey, PubkeyError};
use crate::text::{
    chars_of, decimal, decimal_text, joined, number_in, parse_number, same_text, trim, trimmed,
};
use crate::wallet_auth::AuthVerdict;
use crate::wallet_client::{ClientIp, Entry, SimRateLimiter};
use crate::wallet_limit::request;
use vstd::prelude::*;
use vstd::string::*;
use vstd::utf8::*;

verus! {

/// An error that is answered with a status and a text.
#[derive(Debug)]
pub struct ApiError {
    pub status: u16,
    pub message: String,
}

impl ApiError {
    /// The status and the text.
    pub open spec fn view(&self) -> (u16, Seq<char>) {
        (self.status, self.message@)
    }

    /// The request is at fault.
    pub fn bad(message: String) -> (error: Self)
        ensures
            error@ == (400u16, message@),
    {
        ApiError { status: 400, message }
    }

    /// The server is at fault.
    pub fn internal(message: String) -> (error: Self)
        ensures
            error@ == (500u16, message@),
    {
        ApiError { status: 500, message }
    }

    /// Too many requests.
    pub fn too_many(message: String) -> (error: Self)
        ensures
            error@ == (429u16, message@),
    {
        ApiError { status: 429, message }
    }
}

impl AuthVerdict {
    /// The status that a request is turned away with.
    pub fn status(&self) -> (status: Option<u16>)
        ensures
            status == match self {
                AuthVerdict::Welcome => None,
                AuthVerdict::SwitchedOff => Some(403u16),
                AuthVerdict::ForeignHost => Some(403u16),
                AuthVerdict::Unauthorized => Some(401u16),
            },
    {
        match self {
            AuthVerdict::Welcome => None,
            AuthVerdict::SwitchedOff => Some(403),
            AuthVerdict::ForeignHost => Some(403),
            AuthVerdict::Unauthorized => Some(401),
        }
    }
}

/// The status stands for success.
pub open spec fn is_success(status: u16) -> bool {
    200 <= status < 300
}

/// A letter, a digit, an underscore or a hyphen.
pub open spec fn is_name_char(c: char) -> bool {
    ('a' <= c <= 'z') || ('A' <= c <= 'Z') || ('0' <= c <= '9') || c == '_' || c == '-'
}

/// Why a name is refused.
#[derive(Clone, Copy, Debug, PartialEq, Eq)]
pub enum NameError {
    /// It is empty or has more than 64 bytes.
    Length,
    /// It has a character that is not allowed.
    Character,
}

impl NameError {
    /// What is said about the error.
    pub open spec fn said(&self) -> Seq<char> {
        match self {
            NameError::Length => "el nombre de la wallet debe tener entre 1 y 64 caracteres"@,
            NameError::Character => "el nombre solo puede tener letras, números, '_' y '-'"@,
        }
    }

    /// The answer to a request with such a name.
    pub fn answer(&self) -> (error: ApiError)
        ensures
            error@ == (400u16, self.said()),
    {
        ApiError::bad(
            match self {
                NameError::Length => "el nombre de la wallet debe tener entre 1 y 64 caracteres".to_owned(),
                NameError::Character => "el nombre solo puede tener letras, números, '_' y '-'".to_owned(),
            },
        )
    }
}

/// The name that is taken from what was typed.
pub open spec fn clean_name(typed: Seq<char>) -> Result<Seq<char>, NameError> {
    let name = trimmed(typed);
    if encode_utf8(name).len() == 0 || encode_utf8(name).len() > 64 {
        Err(NameError::Length)
    } else if exists|i: int| 0 <= i < name.len() && !is_name_char(#[trigger] name[i]) {
        Err(NameError::Character)
    } else {
        Ok(name)
    }
}

/// The name that is taken from what was typed: 1 to 64 letters, digits, underscores and
/// hyphens.
pub fn sanitize_name(typed: &str) -> (name: Result<String, NameError>)
    ensures
        match name {
            Ok(n) => clean_name(typed@) == Ok::<Seq<char>, NameError>(n@),
            Err(e) => clean_name(typed@) == Err::<Seq<char>, NameError>(e),
        },
{
    let name = trim(typed);
    let n: usize = name.as_bytes().len();
    if n == 0 || n > 64 {
        return Err(NameError::Length);
    }
    let chars = chars_of(name);
    let mut i: usize = 0;
    while i < chars.len()
        invariant
            i <= chars@.len(),
            chars@ == name@,
            name@ == trimmed(typed@),
            0 < encode_utf8(name@).len() <= 64,
            forall|j: int| 0 <= j < i ==> is_name_char(#[trigger] chars@[j]),
        decreases chars@.len() - i,
    {
        let c: char = chars[i];
        let good = ('a' <= c && c <= 'z') || ('A' <= c && c <= 'Z') || ('0' <= c && c <= '9') || c
            == '_' || c == '-';
        if !good {
            proof {
                assert(!is_name_char(name@[i as int]));
            }
            return Err(NameError::Character);
        }
        i += 1;
    }
    Ok(name.to_owned())
}

/// The file of a wallet.
pub fn wallet_file(typed: &str) -> (file: Result<String, NameError>)
    ensures
        match file {
            Ok(f) => clean_name(typed@) matches Ok(n) && f@ == n + ".json"@,
            Err(e) => clean_name(typed@) == Err::<Seq<char>, NameError>(e),
        },
{
    match sanitize_name(typed) {
        Ok(n) => Ok(joined(n.as_str(), ".json")),
        Err(e) => Err(e),
    }
}

/// A name leads to no other folder: it holds no separator and no dot.
pub proof fn law_names_stay_in_the_folder(typed: Seq<char>)
    ensures
        clean_name(typed) matches Ok(n) ==> 0 < n.len() && forall|i: int|
            0 <= i < n.len() ==> #[trigger] n[i] != '/' && n[i] != '\\' && n[i] != '.',
{
    let name = trimmed(typed);
    if clean_name(typed) is Ok {
        if name.len() == 0 {
            assert(encode_utf8(name).len() == 0);
        }
        assert forall|i: int| 0 <= i < name.len() implies #[trigger] name[i] != '/' && name[i]
            != '\\' && name[i] != '.' by {
            assert(is_name_char(name[i]));
        }
    }
}

/// A name that was taken is taken again as it is.
pub proof fn law_clean_names_are_clean(typed: Seq<char>)
    ensures
        clean_name(typed) matches Ok(n) ==> clean_name(n) == clean_name(typed),
{
    let name = trimmed(typed);
    if clean_name(typed) is Ok {
        if name.len() == 0 {
            assert(encode_utf8(name).len() == 0);
        }
        assert(is_name_char(name[0]));
        assert(is_name_char(name[name.len() - 1]));
    }
}

/// The fee of a transaction of `size` bytes.
pub open spec fn fee_of(base_fee: u64, size: u64) -> u64 {
    if base_fee * size <= u64::MAX {
        (base_fee * size) as u64
    } else {
        u64::MAX
    }
}

/// The fee of a transfer and the most that can be sent in one.
pub fn max_amount(balance: u64, base_fee: u64, size: u64) -> (fee_and_max: (u64, u64))
    ensures
        fee_and_max.0 == fee_of(base_fee, size),
        fee_and_max.1 == if balance >= fee_and_max.0 {
            balance - fee_and_max.0
        } else {
            0
        },
{
    let fee: u64 = match base_fee.checked_mul(size) {
        Some(fee) => fee,
        None => u64::MAX,
    };
    (fee, balance.saturating_sub(fee))
}

/// Why a transfer is refused before it is made.
#[derive(Debug)]
pub enum TransferError {
    /// The recipient is no address; the reason is given.
    Recipient(PubkeyError),
    /// The amount is no whole number.
    NotANumber,
    /// The amount is zero.
    Zero,
}

impl TransferError {
    /// What is said about the error.
    pub open spec fn said(&self) -> Seq<char> {
        match self {
            TransferError::Recipient(e) => "dirección destino inválida: "@ + e.said(),
            TransferError::NotANumber => "el monto debe ser un número entero de unidades"@,
            TransferError::Zero => "el monto debe ser mayor que cero"@,
        }
    }

    /// The answer to such a request.
    pub fn answer(&self) -> (error: ApiError)
        ensures
            error@ == (400u16, self.said()),
    {
        ApiError::bad(
            match self {
                TransferError::Recipient(e) => joined(
                    "dirección destino inválida: ",
                    e.message().as_str(),
                ),
                TransferError::NotANumber => "el monto debe ser un número entero de unidades".to_owned(),
                TransferError::Zero => "el monto debe ser mayor que cero".to_owned(),
            },
        )
    }
}

/// The recipient and the amount of a transfer, from what was typed.
pub fn transfer_terms(to: &str, amount: &str) -> (terms: Result<(Pubkey, u64), TransferError>)
    ensures
        match base58_decoded(trimmed(to@)) {
            Err(reason) => terms matches Err(TransferError::Recipient(e)) && e.said() == reason,
            Ok(bytes) => if bytes.len() != 32 {
                terms matches Err(TransferError::Recipient(e)) && e matches PubkeyError::WrongLength(
                    n,
                ) && n == bytes.len()
            } else {
                match number_in(trimmed(amount@)) {
                    None => terms matches Err(TransferError::NotANumber),
                    Some(n) => if n == 0 {
                        terms matches Err(TransferError::Zero)
                    } else {
                        terms matches Ok(t) && t.0.0@ == bytes && t.1 == n
                    },
                }
            },
        },
{
    let recipient = match Pubkey::parse(trim(to)) {
        Ok(k) => k,
        Err(e) => return Err(TransferError::Recipient(e)),
    };
    let n: u64 = match parse_number(trim(amount)) {
        Some(n) => n,
        None => return Err(TransferError::NotANumber),
    };
    if n == 0 {
        return Err(TransferError::Zero);
    }
    Ok((recipient, n))
}

/// What is done with a signed transaction.
#[derive(Clone, Copy, Debug, PartialEq, Eq)]
pub enum Relay {
    /// It is sent.
    Send,
    /// It is tried out.
    Simulate,
}

/// The largest body that is forwarded to the node: 256 KiB.
pub const MAX_RELAY_BODY: usize = 262_144;

/// What is said about a body that is too large.
pub open spec fn too_large(size: nat) -> Seq<char> {
    "transacción demasiado grande ("@ + decimal(size) + " bytes, máximo "@ + decimal(
        MAX_RELAY_BODY as nat,
    ) + ")"@
}

/// What is said about a transaction that comes too often.
pub open spec fn txid_too_often(relay: Relay) -> Seq<char> {
    match relay {
        Relay::Send => "esta transacción se está enviando demasiado seguido - probá en unos segundos"@,
        Relay::Simulate => "simulación: esta transacción se está simulando demasiado seguido - probá en unos segundos"@,
    }
}

fn too_large_text(size: usize) -> (text: String)
    ensures
        text@ == too_large(size as nat),
{
    let head = joined("transacción demasiado grande (", decimal_text(size as u64).as_str());
    let middle = joined(head.as_str(), " bytes, máximo ");
    let limit = joined(middle.as_str(), decimal_text(MAX_RELAY_BODY as u64).as_str());
    joined(limit.as_str(), ")")
}

/// Whether a body of `size` bytes is forwarded. `txid` names the transaction where the
/// body is one: the node judges the others.
pub fn check_relay(
    relay: Relay,
    size: usize,
    limiter: &mut Option<SimRateLimiter>,
    txid: Option<[u8; 32]>,
    now: u64,
) -> (checked: Result<(), ApiError>)
    requires
        *old(limiter) is Some ==> old(limiter)->0.wf(),
    ensures
        *final(limiter) is Some == *old(limiter) is Some,
        *final(limiter) is Some ==> final(limiter)->0.wf() && final(limiter)->0.settings()
            == old(limiter)->0.settings() && final(limiter)->0.ips() == old(limiter)->0.ips(),
        size > MAX_RELAY_BODY ==> *final(limiter) == *old(limiter) && (checked matches Err(e) && e@
            == (400u16, too_large(size as nat))),
        size <= MAX_RELAY_BODY && (*old(limiter) is None || txid is None) ==> *final(limiter)
            == *old(limiter) && checked is Ok,
        size <= MAX_RELAY_BODY && *old(limiter) is Some && txid is Some ==> {
            let r = request(
                old(limiter)->0.txids(),
                txid->0,
                old(limiter)->0.settings().1,
                now,
            );
            &&& final(limiter)->0.txids() == r.0
            &&& r.1 ==> checked is Ok
            &&& !r.1 ==> (checked matches Err(e) && e@ == (429u16, txid_too_often(relay)))
        },
{
    if size > MAX_RELAY_BODY {
        return Err(ApiError::bad(too_large_text(size)));
    }
    match limiter {
        None => Ok(()),
        Some(l) => match txid {
            None => Ok(()),
            Some(id) => {
                if l.allow_txid(id, now) {
                    Ok(())
                } else {
                    Err(
                        ApiError::too_many(
                            match relay {
                                Relay::Send => "esta transacción se está enviando demasiado seguido - probá en unos segundos".to_owned(),
                                Relay::Simulate => "simulación: esta transacción se está simulando demasiado seguido - probá en unos segundos".to_owned(),
                            },
                        ),
                    )
                }
            },
        },
    }
}

/// What is said to a request before it is let in.
pub open spec fn entry_says(relay: Relay, entry: Entry) -> Option<Seq<char>> {
    match entry {
        Entry::Pass(ip) => None,
        Entry::NoPeer => Some("no se pudo determinar la IP del cliente"@),
        Entry::NoClient => Some(
            "no se pudo identificar el cliente de forma confiable detrás del proxy"@,
        ),
        Entry::TooOften => Some(
            match relay {
                Relay::Send => "demasiadas transacciones desde tu IP - probá de nuevo en unos segundos"@,
                Relay::Simulate => "simulación: demasiadas solicitudes desde tu IP - probá de nuevo en unos segundos"@,
            },
        ),
    }
}

/// The client that a request that was let in is forwarded for, or the answer to one
/// that did not.
pub fn entry_answer(relay: Relay, entry: Entry) -> (passed: Result<Option<ClientIp>, ApiError>)
    ensures
        match passed {
            Ok(client) => entry == Entry::Pass(client),
            Err(e) => e.status == 429 && entry_says(relay, entry) == Some(e.message@),
        },
{
    match entry {
        Entry::Pass(client) => Ok(client),
        Entry::NoPeer => Err(
            ApiError::too_many("no se pudo determinar la IP del cliente".to_owned()),
        ),
        Entry::NoClient => Err(
            ApiError::too_many(
                "no se pudo identificar el cliente de forma confiable detrás del proxy".to_owned(),
            ),
        ),
        Entry::TooOften => Err(
            ApiError::too_many(
                match relay {
                    Relay::Send => "demasiadas transacciones desde tu IP - probá de nuevo en unos segundos".to_owned(),
                    Relay::Simulate => "simulación: demasiadas solicitudes desde tu IP - probá de nuevo en unos segundos".to_owned(),
                },
            ),
        ),
    }
}

/// The status and the text with which a refusal by the node is passed on: a limit of the
/// node stays a limit, everything else is the request's fault.
pub open spec fn node_refusal(relay: Relay, status: u16, said: Seq<char>) -> (u16, Seq<char>) {
    if status == 429 {
        (
            429,
            if said.len() == 0 {
                match relay {
                    Relay::Send => "el nodo alcanzó su límite de solicitudes - probá en unos segundos"@,
                    Relay::Simulate => "simulación: límite de solicitudes del nodo alcanzado"@,
                }
            } else {
                said
            },
        )
    } else {
        (
            400,
            match relay {
                Relay::Send => "el nodo rechazó la transacción: "@ + said,
                Relay::Simulate => "el nodo no pudo simular la transacción: "@ + said,
            },
        )
    }
}

/// What is answered where the node answered with this status and text.
pub fn relay_answer(relay: Relay, status: u16, said: &str) -> (answer: Result<(), ApiError>)
    ensures
        match answer {
            Ok(_) => is_success(status),
            Err(e) => !is_success(status) && e@ == node_refusal(relay, status, said@),
        },
{
    if 200 <= status && status < 300 {
        return Ok(());
    }
    if status == 429 {
        if said.is_empty() {
            return Err(
                ApiError::too_many(
                    match relay {
                        Relay::Send => "el nodo alcanzó su límite de solicitudes - probá en unos segundos".to_owned(),
                        Relay::Simulate => "simulación: límite de solicitudes del nodo alcanzado".to_owned(),
                    },
                ),
            );
        }
        return Err(ApiError::too_many(said.to_owned()));
    }
    Err(
        ApiError::bad(
            match relay {
                Relay::Send => joined("el nodo rechazó la transacción: ", said),
                Relay::Simulate => joined("el nodo no pudo simular la transacción: ", said),
            },
        ),
    )
}

/// What is answered where the node answered a transfer of a wallet kept here with this status
/// and text: whatever the node refuses is the request's fault.
pub fn transfer_answer(status: u16, said: &str) -> (answer: Result<(), ApiError>)
    ensures
        match answer {
            Ok(_) => is_success(status),
            Err(e) => !is_success(status) && e@ == (
                400u16,
                "el nodo rechazó la transacción: "@ + said@,
            ),
        },
{
    if 200 <= status && status < 300 {
        return Ok(());
    }
    Err(ApiError::bad(joined("el nodo rechazó la transacción: ", said)))
}

/// Where a request for test funds goes: the faucet, where there is one, for an address
/// that is one.
pub fn faucet_target(faucet: Option<&str>, address: &str) -> (url: Result<String, ApiError>)
    ensures
        match faucet {
            None => url matches Err(e) && e@ == (
                404u16,
                "no hay faucet configurado en esta wallet"@,
            ),
            Some(f) => match base58_decoded(address@) {
                Err(reason) => url matches Err(e) && e@ == (400u16, reason),
                Ok(bytes) => if bytes.len() == 32 {
                    url matches Ok(u) && u@ == f@ + "/faucet"@
                } else {
                    url matches Err(e) && e@ == (
                        400u16,
                        "invalid pubkey: expected 32 bytes, got "@ + decimal(bytes.len()),
                    )
                },
            },
        },
{
    match faucet {
        None => Err(
            ApiError {
                status: 404,
                message: "no hay faucet configurado en esta wallet".to_owned(),
            },
        ),
        Some(f) => match Pubkey::parse(address) {
            Err(e) => Err(ApiError::bad(e.message())),
            Ok(_) => Ok(joined(f, "/faucet")),
        },
    }
}

/// What is answered where the faucet answered with this status and text.
pub fn faucet_answer(status: u16, said: &str) -> (answer: Result<(), ApiError>)
    ensures
        match answer {
            Ok(_) => is_success(status),
            Err(e) => {
                &&& !is_success(status)
                &&& e.status == if 100 <= status < 1000 {
                    status
                } else {
                    502
                }
                &&& e.message@ == if said@.len() == 0 {
                    "el faucet rechazó el pedido"@
                } else {
                    said@
                }
            },
        },
{
    if 200 <= status && status < 300 {
        return Ok(());
    }
    let passed_on: u16 = if 100 <= status && status < 1000 {
        status
    } else {
        502
    };
    let message = if said.is_empty() {
        "el faucet rechazó el pedido".to_owned()
    } else {
        said.to_owned()
    };
    Err(ApiError { status: passed_on, message })
}

/// The contents of a wallet that is brought in: what a backup holds under the password,
/// or the text itself where it is no backup.
pub fn import_contents(backup: Option<Keystore>, text: &str, password: Option<&str>) -> (contents:
    Result<String, ApiError>)
    ensures
        match backup {
            None => contents matches Ok(c) && c@ == text@,
            Some(b) => if password is None || password->0@.len() == 0 {
                contents matches Err(e) && e@ == (
                    400u16,
                    "este respaldo está cifrado - hace falta la contraseña que usaste al descargarlo"@,
                )
            } else {
                match opened(b@, password->0@) {
                    Ok(found) => contents matches Ok(c) && c@ == found,
                    Err(fault) => contents matches Err(e) && e@ == (400u16, fault_text(fault)),
                }
            },
        },
{
    match backup {
        None => Ok(text.to_owned()),
        Some(b) => {
            let given: &str = match password {
                Some(p) => p,
                None => "",
            };
            proof {
                reveal_strlit("");
            }
            if given.is_empty() {
                return Err(
                    ApiError::bad(
                        "este respaldo está cifrado - hace falta la contraseña que usaste al descargarlo".to_owned(),
                    ),
                );
            }
            match decrypt(&b, given) {
                Ok(c) => Ok(c),
                Err(e) => Err(ApiError::bad(e.message())),
            }
        },
    }
}

/// Why the wallet does not start.
#[derive(Clone, Copy, Debug, PartialEq, Eq)]
pub enum ProfileError {
    /// There is no such network.
    Unknown,
    /// On the main network the wallet has to sit behind a trusted proxy.
    NeedsProxy,
}

/// Whether the wallet starts on this network: on the main one only behind a proxy that
/// speaks TLS.
pub fn check_profile(network: Option<&str>, behind_proxy: bool) -> (checked: Result<(), ProfileError>)
    ensures
        match network {
            None => checked is Ok,
            Some(p) => if p@ == "mainnet"@ {
                checked == if behind_proxy {
                    Ok::<(), ProfileError>(())
                } else {
                    Err::<(), ProfileError>(ProfileError::NeedsProxy)
                }
            } else if p@ == "testnet"@ {
                checked is Ok
            } else {
                checked == Err::<(), ProfileError>(ProfileError::Unknown)
            },
        },
{
    match network {
        None => Ok(()),
        Some(p) => {
            let main = same_text(p, "mainnet");
            let test = same_text(p, "testnet");
            if !main && !test {
                return Err(ProfileError::Unknown);
            }
            if main && !behind_proxy {
                return Err(ProfileError::NeedsProxy);
            }
            Ok(())
        },
    }
}

/// Whether a text switches something on.
pub fn switches_on(text: &str) -> (on: bool)
    ensures
        on == (trimmed(text@) == "1"@ || trimmed(text@) == "true"@ || trimmed(text@) == "TRUE"@
            || trimmed(text@) == "yes"@),
{
    let t = trim(text);
    same_text(t, "1") || same_text(t, "true") || same_text(t, "TRUE") || same_text(t, "yes")
}

} // verus!
