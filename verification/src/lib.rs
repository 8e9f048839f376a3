//! State commitment, accounts, programs and signing policy of a small
//! post-quantum chain, written and verified in Verus.
pub mod bits;
pub mod hash;
pub mod keymap;
pub mod codec;
pub mod pubkey;
pub mod state_account;
pub mod leaves;
pub mod store;
pub mod tree;
pub mod incremental;
pub mod compressed;
pub mod patricia;
pub mod tree_laws;
pub mod text_laws;
pub mod text;
pub mod hextext;
pub mod base64text;
pub mod disk_store;
pub mod disk_log;
pub mod disk_laws;
pub mod keys;
pub mod account;
pub mod poh;
pub mod transaction;
pub mod block;
pub mod ledger;
pub mod decode;
pub mod stake;
pub mod system_program;
pub mod memo_program;
pub mod stake_program;
pub mod programs;
pub mod supply;
pub mod rewards;
pub mod ledger_laws;
pub mod layout_laws;
pub mod signer_laws;
pub mod signer_wire;
pub mod signer_handshake;
pub mod signer_guard;
pub mod signer_policy;
pub mod signer;
pub mod signer_codec;
pub mod vertex;
pub mod roundmap;
pub mod committee;
pub mod dag;
pub mod sim_validator;
pub mod sim_laws;
pub mod consensus_laws;
pub mod sim;
pub mod sim_run;
pub mod sim_driver;
pub mod run_laws;
pub mod stark;
pub mod stark_laws;
pub mod node;
pub mod client;
pub mod node_laws;
pub mod wallet_limit;
pub mod wallet_client;
pub mod wallet_auth;
pub mod keystore;
pub mod wallet_api;
pub mod wallet_assets;
pub mod qr;
pub mod proposal;
pub mod wallet_derive;
pub mod wallet_requests;
pub mod request_laws;
pub mod wallet_laws;
pub mod contract;
pub mod contract_laws;
pub mod host_laws;
pub mod flow_laws;
pub mod payments;
pub mod counter;
pub mod shared_counter;
pub mod vault;
pub mod token;
pub mod escrow;
