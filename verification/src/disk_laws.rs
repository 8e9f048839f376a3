//! What is on disk, row by row: how it is read when a store is opened, and how it is written.
use crate::codec::{le_bytes, lemma_le_bytes_len, lemma_le_round_trip, lemma_pow256};
use crate::disk_log::{
    all_changed, be_bytes, be_value, comes_before, held, is_past, is_tight, newest, parts_at,
    read_under,
};
use crate::disk_store::{
    agree, agree_at, agree_on, all_written, brings_up_to_date, first_fault, in_step,
    is_first_fault, loaded, loaded_meta, meta_sound, names, row_data, row_fault, sound, touches,
    Buffered, Corruption, Disk, Row, WriteData,
};
use crate::state_account::{
    account_bytes, account_of, encodable, is_account, law_bytes_name_one_account, StateAccountData,
};
use crate::text::decimal;
use vstd::prelude::*;
use vstd::string::*;
use vstd::utf8::*;

verus! {

/// A row of accounts is sound exactly where its key is an address and its value an account; else
/// its fault is told.
pub proof fn law_rows_are_checked(row: Row)
    ensures
        row.0@.len() == 32 && is_account(row.1@) ==> row_fault(row_data(row)) is None,
        row.0@.len() != 32 ==> row_fault(row_data(row)) == Some(
            Corruption::KeyLength(row.0@.len() as u64),
        ),
        row.0@.len() == 32 && !is_account(row.1@) ==> row_fault(row_data(row)) == Some(
            Corruption::Value,
        ),
{
}

/// Rows are sound where none has a fault, and else the fault of the first that has one is told.
pub proof fn law_first_fault_is_told(rows: Seq<Row>, i: int, fault: Corruption)
    ensures
        sound(rows) && 0 <= i < rows.len() ==> rows[i].0@.len() == 32 && is_account(rows[i].1@),
        first_fault(rows, fault) ==> !sound(rows),
        0 <= i < rows.len() && row_fault(row_data(rows[i])) == Some(fault) && (forall|j: int|
            0 <= j < i ==> (#[trigger] rows[j]).0@.len() == 32 && is_account(rows[j].1@))
            ==> first_fault(rows, fault),
        meta_sound(rows) && 0 <= i < rows.len() ==> valid_utf8(rows[i].0@),
{
    if sound(rows) && 0 <= i < rows.len() {
        assert(row_fault(row_data(rows[i])) is None);
    }
    if first_fault(rows, fault) {
        let k = choose|k: int| is_first_fault(rows, k, fault);
        assert(row_fault(row_data(rows[k])) is Some);
    }
    if 0 <= i < rows.len() && row_fault(row_data(rows[i])) == Some(fault) && (forall|j: int|
        0 <= j < i ==> (#[trigger] rows[j]).0@.len() == 32 && is_account(rows[j].1@)) {
        assert forall|j: int| 0 <= j < i implies row_fault(row_data(#[trigger] rows[j])) is None by {
            assert(rows[j].0@.len() == 32);
        }
        assert(is_first_fault(rows, i, fault));
    }
}

/// How faults on disk are told.
pub proof fn law_faults_on_disk_are_told(n: u64, database: Seq<char>, path: Seq<char>)
    ensures
        Corruption::KeyLength(n).said(database, path) == "corrupt "@ + database + " at "@ + path
            + ": a key is "@ + decimal(n as nat) + " bytes, expected a 32-byte address"@,
        Corruption::Value.said(database, path) == "corrupt "@ + database + " at "@ + path
            + ": an account value failed to decode - refusing to run on damaged state"@,
        Corruption::MetaKey.said(database, path) == "corrupt "@ + database + " at "@ + path
            + ": a metadata key is not text"@,
{
}

/// What is loaded: each row under its address, the account that its bytes stand for; and each row
/// of metadata under its name, its bytes. Of rows with one key the last counts.
pub proof fn law_rows_are_loaded(
    rows: Seq<Row>,
    row: Row,
    key: [u8; 32],
    account: StateAccountData,
    name: Seq<char>,
)
    ensures
        loaded(Seq::empty()) == Map::<[u8; 32], StateAccountData>::empty(),
        row.0@ == key@ && encodable(account) && row.1@ == account_bytes(account) ==> loaded(
            rows.push(row),
        ) == loaded(rows).insert(key, account),
        loaded_meta(Seq::empty()) == Map::<Seq<char>, Seq<u8>>::empty(),
        decode_utf8(row.0@) == name ==> loaded_meta(rows.push(row)) == loaded_meta(rows).insert(
            name,
            row.1@,
        ),
{
    assert(rows.push(row).drop_last() =~= rows);
    if row.0@ == key@ && encodable(account) && row.1@ == account_bytes(account) {
        let k = crate::disk_store::address_in(row.0@);
        assert(k =~= key);
        law_bytes_name_one_account(account, account_of(row.1@));
    }
}

/// What is written: accounts are put and dropped, and metadata are put, one after the other.
pub proof fn law_writes_happen_in_turn(
    disk: Disk,
    ws: Seq<WriteData>,
    key: [u8; 32],
    name: Seq<char>,
    value: Seq<u8>,
)
    ensures
        all_written(disk, Seq::empty()) == disk,
        ({
            let before = all_written(disk, ws);
            let put = all_written(disk, ws.push(WriteData::PutAccount(key, value)));
            let dropped = all_written(disk, ws.push(WriteData::DropAccount(key)));
            let named = all_written(disk, ws.push(WriteData::PutMeta(name, value)));
            &&& put.accounts == before.accounts.insert(key, value) && put.meta == before.meta
            &&& dropped.accounts == before.accounts.remove(key) && dropped.meta == before.meta
            &&& named.meta == before.meta.insert(name, value) && named.accounts == before.accounts
        }),
{
    assert(ws.push(WriteData::PutAccount(key, value)).drop_last() =~= ws);
    assert(ws.push(WriteData::DropAccount(key)).drop_last() =~= ws);
    assert(ws.push(WriteData::PutMeta(name, value)).drop_last() =~= ws);
}

/// The numbers of a log are written in eight bytes, most significant first, and read so.
pub proof fn law_most_significant_first(n: u64, s: Seq<u8>)
    ensures
        be_bytes(n).len() == 8,
        be_bytes(n)[7] == n % 256,
        be_bytes(n)[6] == n / 0x100 % 256,
        be_bytes(n)[0] == n / 0x100_0000_0000_0000,
        be_value(be_bytes(n)) == n,
        s.len() > 0 ==> be_value(s) == s.last() + 256 * be_value(s.drop_last()),
        be_value(Seq::empty()) == 0,
{
    lemma_le_bytes_len(n as nat, 8);
    lemma_pow256();
    lemma_le_round_trip(n as nat, 8);
    let b = le_bytes(n as nat, 8);
    assert(be_bytes(n).reverse() =~= b);
    reveal_with_fuel(le_bytes, 9);
    assert(b[0] == n % 256);
    assert(b[1] == n / 0x100 % 256);
    assert(b[7] == n / 0x100_0000_0000_0000);
    if s.len() > 0 {
        assert(s.reverse().skip(1) =~= s.drop_last().reverse());
        assert(s.reverse()[0] == s.last());
    }
    assert(Seq::<u8>::empty().reverse() =~= Seq::empty());
}

/// Bytes come before others where they part at a smaller byte, and agree before it.
pub proof fn law_bytes_are_ordered(a: Seq<u8>, b: Seq<u8>, i: int)
    requires
        0 <= i < a.len(),
        i < b.len(),
        forall|j: int| 0 <= j < i ==> #[trigger] a[j] == b[j],
    ensures
        a[i] < b[i] ==> comes_before(a, b) && !comes_before(b, a),
        a[i] > b[i] ==> comes_before(b, a) && !comes_before(a, b),
{
    assert(a.take(i) =~= b.take(i));
    if a[i] < b[i] {
        assert(parts_at(a, b, i));
        if comes_before(b, a) {
            let k = choose|k: int| parts_at(b, a, k);
            lemma_part(a, b, i, k);
        }
    }
    if a[i] > b[i] {
        assert(parts_at(b, a, i));
        if comes_before(a, b) {
            let k = choose|k: int| parts_at(a, b, k);
            lemma_part(b, a, i, k);
        }
    }
}

proof fn lemma_part(a: Seq<u8>, b: Seq<u8>, i: int, k: int)
    requires
        parts_at(a, b, i),
    ensures
        !parts_at(b, a, k),
{
    if parts_at(b, a, k) {
        if k < i {
            assert(a.take(i)[k] == b.take(i)[k]);
        } else if i < k {
            assert(a.take(k)[i] == b.take(k)[i]);
        }
    }
}

/// The changes of a log: the newest one of a key counts, and a key without any is read from what
/// was committed.
pub proof fn law_newest_changes_count(
    entries: Map<Seq<u8>, Seq<u8>>,
    list: Seq<(Seq<u8>, Option<Seq<u8>>)>,
    key: Seq<u8>,
    other: Seq<u8>,
    value: Seq<u8>,
    committed: Option<Seq<u8>>,
)
    ensures
        newest(Seq::empty(), key) is None,
        read_under(Seq::empty(), key, committed) == committed,
        read_under(list.push((key, Some(value))), key, committed) == Some(value),
        read_under(list.push((key, None)), key, committed) is None,
        other != key ==> read_under(list.push((other, Some(value))), key, committed) == read_under(
            list,
            key,
            committed,
        ) && read_under(list.push((other, None)), key, committed) == read_under(
            list,
            key,
            committed,
        ),
        all_changed(entries, Seq::empty()) == entries,
        all_changed(entries, list.push((key, Some(value)))) == all_changed(entries, list).insert(
            key,
            value,
        ),
        all_changed(entries, list.push((key, None))) == all_changed(entries, list).remove(key),
        held(entries, key) is Some <==> entries.contains_key(key),
        entries.contains_key(key) ==> held(entries, key) == Some(entries[key]),
{
    assert(list.push((key, Some(value))).drop_last() =~= list);
    assert(list.push((key, None::<Seq<u8>>)).drop_last() =~= list);
    assert(list.push((other, Some(value))).drop_last() =~= list);
    assert(list.push((other, None::<Seq<u8>>)).drop_last() =~= list);
}

/// The next number of a log is past all numbers that are there, and the smallest such.
pub proof fn law_next_number(next: u64, keys: Seq<Vec<u8>>, i: int)
    requires
        is_past(next, keys),
        is_tight(next, keys),
    ensures
        0 <= i < keys.len() && keys[i]@.len() == 8 ==> be_value(keys[i]@) < next,
        next > 0 ==> exists|j: int|
            0 <= j < keys.len() && (#[trigger] keys[j])@.len() == 8 && be_value(keys[j]@) == next
                - 1,
        (forall|j: int| 0 <= j < keys.len() ==> (#[trigger] keys[j])@.len() != 8) ==> next == 0,
{
}

/// A store and its disk agree where each account is on disk in its bytes, each name with its
/// value, and nothing else is.
pub proof fn law_stores_and_disks_agree(disk: Disk, b: Buffered)
    ensures
        agree(disk, b) <==> {
            &&& forall|k: [u8; 32]| #[trigger]
                disk.accounts.contains_key(k) <==> b.accounts.contains_key(k)
            &&& forall|k: [u8; 32]| #[trigger]
                b.accounts.contains_key(k) ==> disk.accounts[k] == account_bytes(b.accounts[k])
            &&& forall|n: Seq<char>| #[trigger]
                disk.meta.contains_key(n) <==> b.meta.contains_key(n)
            &&& forall|n: Seq<char>| #[trigger] b.meta.contains_key(n) ==> disk.meta[n] == b.meta[n]
        },
{
    if agree(disk, b) {
        assert forall|k: [u8; 32]| #[trigger]
            disk.accounts.contains_key(k) <==> b.accounts.contains_key(k) by {
            assert(agree_at(disk, b, k));
        }
        assert forall|k: [u8; 32]| #[trigger] b.accounts.contains_key(k) implies disk.accounts[k]
            == account_bytes(b.accounts[k]) by {
            assert(agree_at(disk, b, k));
        }
        assert forall|n: Seq<char>| #[trigger]
            disk.meta.contains_key(n) <==> b.meta.contains_key(n) by {
            assert(agree_on(disk, b, n));
        }
        assert forall|n: Seq<char>| #[trigger] b.meta.contains_key(n) implies disk.meta[n]
            == b.meta[n] by {
            assert(agree_on(disk, b, n));
        }
    }
}

/// A store is in step with its disk where they agree on all that was not changed since.
pub proof fn law_stores_are_in_step(disk: Disk, b: Buffered, k: [u8; 32], n: Seq<char>)
    requires
        in_step(disk, b),
    ensures
        !b.dirty.contains(k) ==> (disk.accounts.contains_key(k) <==> b.accounts.contains_key(k))
            && (b.accounts.contains_key(k) ==> disk.accounts[k] == account_bytes(b.accounts[k])),
        !b.staged.contains_key(n) ==> (disk.meta.contains_key(n) <==> b.meta.contains_key(n)) && (
        b.meta.contains_key(n) ==> disk.meta[n] == b.meta[n]),
{
    if !b.dirty.contains(k) {
        assert(agree_at(disk, b, k));
    }
    if !b.staged.contains_key(n) {
        assert(agree_on(disk, b, n));
    }
}

/// The writes that are due put every account that was changed, or drop it where it is gone, and
/// put every name that was, with what they are now; and nothing else.
pub proof fn law_due_writes(ws: Seq<WriteData>, b: Buffered, k: [u8; 32], n: Seq<char>, i: int)
    requires
        brings_up_to_date(ws, b),
    ensures
        0 <= i < ws.len() ==> match ws[i] {
            WriteData::PutAccount(key, value) => b.dirty.contains(key) && b.accounts.contains_key(
                key,
            ) && value == account_bytes(b.accounts[key]),
            WriteData::DropAccount(key) => b.dirty.contains(key) && !b.accounts.contains_key(key),
            WriteData::PutMeta(name, value) => b.staged.contains_key(name) && value
                == b.staged[name],
        },
        b.dirty.contains(k) ==> exists|j: int|
            0 <= j < ws.len() && (#[trigger] ws[j] == WriteData::DropAccount(k) || (
            ws[j] is PutAccount && ws[j]->PutAccount_0 == k)),
        b.staged.contains_key(n) ==> exists|j: int|
            0 <= j < ws.len() && (#[trigger] ws[j]) is PutMeta && ws[j]->PutMeta_0 == n,
{
    if b.dirty.contains(k) {
        let j = choose|j: int| 0 <= j < ws.len() && touches(#[trigger] ws[j], k);
        assert(ws[j] == WriteData::DropAccount(k) || (ws[j] is PutAccount && ws[j]->PutAccount_0
            == k));
    }
    if b.staged.contains_key(n) {
        let j = choose|j: int| 0 <= j < ws.len() && names(#[trigger] ws[j], n);
        assert(ws[j] is PutMeta);
    }
}

} // verus!
