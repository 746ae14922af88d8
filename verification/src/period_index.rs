//! The last written block of each account and storage slot, by the hashes that a trie walk sees.
use vstd::prelude::*;

use crate::cold_format::read_hash;
use crate::nibble_map::NibbleMap;
use crate::nibbles::{unpack_bytes, unpacked};
use crate::outside::{keccak256, keccak256_of};
use crate::primitives::{Address, B256};

verus! {

/// The hash of an address and the hash of one of its slots.
#[derive(Debug, Clone, Copy, PartialEq, Eq, Hash)]
pub struct HashedStorageKey {
    pub owner: B256,
    pub slot: B256,
}

impl HashedStorageKey {
    /// The two hashes, one after the other.
    pub fn encode(&self) -> (bytes: [u8; 64])
        ensures
            bytes@ == self.owner@ + self.slot@,
    {
        let mut bytes: [u8; 64] = [0u8; 64];
        let mut i: usize = 0;
        while i < 32
            invariant
                i <= 32,
                forall|j: int| 0 <= j < i ==> bytes@[j] == self.owner@[j],
                forall|j: int| 0 <= j < i ==> bytes@[j + 32] == self.slot@[j],
            decreases 32 - i,
        {
            bytes[i] = self.owner[i];
            bytes[i + 32] = self.slot[i];
            i = i + 1;
        }
        assert forall|j: int| 32 <= j < 64 implies bytes@[j] == (self.owner@ + self.slot@)[j] by {
            assert(bytes@[(j - 32) + 32] == self.slot@[j - 32]);
        }
        assert(bytes@ =~= self.owner@ + self.slot@);
        bytes
    }

    /// The key that 64 bytes stand for.
    pub fn decode(value: &[u8]) -> (key: Self)
        requires
            value@.len() == 64,
        ensures
            key.owner@ == value@.take(32),
            key.slot@ == value@.skip(32),
    {
        let owner: B256 = read_hash(value, 0);
        let slot: B256 = read_hash(value, 32);
        assert(value@.subrange(0, 32) =~= value@.take(32));
        assert(value@.subrange(32, 64) =~= value@.skip(32));
        HashedStorageKey { owner, slot }
    }
}

/// A storage key reads back from its bytes.
pub proof fn lemma_storage_key_round_trip(key: HashedStorageKey)
    ensures
        (key.owner@ + key.slot@).take(32) == key.owner@,
        (key.owner@ + key.slot@).skip(32) == key.slot@,
{
    assert((key.owner@ + key.slot@).take(32) =~= key.owner@);
    assert((key.owner@ + key.slot@).skip(32) =~= key.slot@);
}

/// Bytes are determined by their nibbles.
proof fn lemma_unpacked_injective(a: Seq<u8>, b: Seq<u8>)
    requires
        unpacked(a) == unpacked(b),
    ensures
        a == b,
{
    assert(unpacked(a).len() == a.len() * 2);
    assert(unpacked(b).len() == b.len() * 2);
    assert forall|i: int| 0 <= i < a.len() implies a[i] == b[i] by {
        assert(2 * i / 2 == i && (2 * i + 1) / 2 == i);
        assert(unpacked(a)[2 * i] == (a[i] / 16) as u8);
        assert(unpacked(b)[2 * i] == (b[i] / 16) as u8);
        assert(unpacked(a)[2 * i + 1] == (a[i] % 16) as u8);
        assert(unpacked(b)[2 * i + 1] == (b[i] % 16) as u8);
    }
    assert(a =~= b);
}

/// Last written blocks by the bytes of a key.
spec fn by_bytes(map: Map<Seq<u8>, u64>) -> Map<Seq<u8>, u64> {
    Map::new(|key: Seq<u8>| map.contains_key(unpacked(key)), |key: Seq<u8>| map[unpacked(key)])
}

/// Setting a block under the nibbles of a key sets it for that key and no other.
proof fn lemma_by_bytes_insert(map: Map<Seq<u8>, u64>, key: Seq<u8>, block: u64)
    ensures
        by_bytes(map.insert(unpacked(key), block)) == by_bytes(map).insert(key, block),
{
    assert forall|k: Seq<u8>| unpacked(k) == unpacked(key) implies k == key by {
        lemma_unpacked_injective(k, key);
    }
    assert(by_bytes(map.insert(unpacked(key), block)) =~= by_bytes(map).insert(key, block));
}

/// Last written blocks, found by hash.
pub struct PeriodIndex {
    accounts: NibbleMap<u64>,
    storage: NibbleMap<u64>,
}

/// What an index holds: blocks by the 32 bytes of a hashed address, and by the 64 bytes of a
/// hashed owner and a hashed slot.
pub struct PeriodIndexView {
    pub accounts: Map<Seq<u8>, u64>,
    pub storage: Map<Seq<u8>, u64>,
}

impl View for PeriodIndex {
    type V = PeriodIndexView;

    closed spec fn view(&self) -> PeriodIndexView {
        PeriodIndexView {
            accounts: by_bytes(self.accounts@),
            storage: by_bytes(self.storage@),
        }
    }
}

/// What a lookup in a map gives.
pub open spec fn found_in(map: Map<Seq<u8>, u64>, key: Seq<u8>) -> Option<u64> {
    if map.contains_key(key) {
        Some(map[key])
    } else {
        None
    }
}

/// The rows of accounts, by the hash of their address.
pub open spec fn hashed_accounts(rows: Seq<(Address, u64)>) -> Seq<(Seq<u8>, u64)> {
    Seq::new(rows.len(), |i: int| (keccak256_of(rows[i].0@), rows[i].1))
}

/// The rows of slots, by the hash of their address and their own hash.
pub open spec fn hashed_slots(rows: Seq<((Address, B256), u64)>) -> Seq<(Seq<u8>, u64)> {
    Seq::new(
        rows.len(),
        |i: int| (keccak256_of(rows[i].0.0@) + keccak256_of(rows[i].0.1@), rows[i].1),
    )
}

/// What the first `n` rows hold; the last row of a key counts.
pub open spec fn rows_after(rows: Seq<(Seq<u8>, u64)>, n: int) -> Map<Seq<u8>, u64>
    decreases n,
{
    if n <= 0 {
        Map::empty()
    } else {
        rows_after(rows, n - 1).insert(rows[n - 1].0, rows[n - 1].1)
    }
}

impl PeriodIndex {
    /// The index without entries.
    pub fn new() -> (index: Self)
        ensures
            index@.accounts == Map::<Seq<u8>, u64>::empty(),
            index@.storage == Map::<Seq<u8>, u64>::empty(),
    {
        let index = PeriodIndex { accounts: NibbleMap::new(), storage: NibbleMap::new() };
        assert(index@.accounts =~= Map::<Seq<u8>, u64>::empty());
        assert(index@.storage =~= Map::<Seq<u8>, u64>::empty());
        index
    }

    /// Takes in one row of the accounts' last written blocks.
    pub fn insert_account(&mut self, address: &Address, block: u64)
        ensures
            final(self)@.accounts == old(self)@.accounts.insert(keccak256_of(address@), block),
            final(self)@.storage == old(self)@.storage,
    {
        let hashed: B256 = keccak256(address.as_slice());
        let key: Vec<u8> = unpack_bytes(hashed.as_slice());
        self.accounts.insert(key.as_slice(), block);
        proof {
            lemma_by_bytes_insert(old(self).accounts@, hashed@, block);
        }
    }

    /// Takes in one row of the slots' last written blocks.
    pub fn insert_storage(&mut self, address: &Address, slot: &B256, block: u64)
        ensures
            final(self)@.storage == old(self)@.storage.insert(
                keccak256_of(address@) + keccak256_of(slot@),
                block,
            ),
            final(self)@.accounts == old(self)@.accounts,
            keccak256_of(address@).len() == 32,
            keccak256_of(slot@).len() == 32,
    {
        let owner: B256 = keccak256(address.as_slice());
        let hashed: B256 = keccak256(slot.as_slice());
        let bytes: [u8; 64] = HashedStorageKey { owner, slot: hashed }.encode();
        let key: Vec<u8> = unpack_bytes(bytes.as_slice());
        self.storage.insert(key.as_slice(), block);
        proof {
            lemma_by_bytes_insert(old(self).storage@, bytes@, block);
        }
    }

    /// The index of all rows of the two tables.
    pub fn build(accounts: &[(Address, u64)], storage: &[((Address, B256), u64)]) -> (index: Self)
        ensures
            index@.accounts == rows_after(hashed_accounts(accounts@), accounts@.len() as int),
            index@.storage == rows_after(hashed_slots(storage@), storage@.len() as int),
            forall|i: int|
                0 <= i < storage@.len() ==> keccak256_of((#[trigger] storage@[i]).0.0@).len() == 32,
    {
        let mut index: PeriodIndex = PeriodIndex::new();
        let mut i: usize = 0;
        while i < accounts.len()
            invariant
                i <= accounts@.len(),
                index@.accounts == rows_after(hashed_accounts(accounts@), i as int),
                index@.storage == Map::<Seq<u8>, u64>::empty(),
            decreases accounts.len() - i,
        {
            index.insert_account(&accounts[i].0, accounts[i].1);
            i = i + 1;
        }
        let mut j: usize = 0;
        while j < storage.len()
            invariant
                j <= storage@.len(),
                index@.accounts == rows_after(hashed_accounts(accounts@), accounts@.len() as int),
                index@.storage == rows_after(hashed_slots(storage@), j as int),
                forall|i: int|
                    0 <= i < j ==> keccak256_of((#[trigger] storage@[i]).0.0@).len() == 32,
            decreases storage.len() - j,
        {
            index.insert_storage(&storage[j].0.0, &storage[j].0.1, storage[j].1);
            j = j + 1;
        }
        index
    }

    /// The last written block of the account with this hashed address.
    pub fn account_block(&self, hashed_address: &B256) -> (block: Option<u64>)
        ensures
            block == found_in(self@.accounts, hashed_address@),
    {
        let key: Vec<u8> = unpack_bytes(hashed_address.as_slice());
        match self.accounts.get(key.as_slice()) {
            Some(block) => Some(*block),
            None => None,
        }
    }

    /// The last written block of the slot with this hash in the account with this hashed address.
    pub fn storage_block(&self, hashed_owner: &B256, hashed_slot: &B256) -> (block: Option<u64>)
        ensures
            block == found_in(self@.storage, hashed_owner@ + hashed_slot@),
    {
        let bytes: [u8; 64] = HashedStorageKey { owner: *hashed_owner, slot: *hashed_slot }.encode();
        let key: Vec<u8> = unpack_bytes(bytes.as_slice());
        match self.storage.get(key.as_slice()) {
            Some(block) => Some(*block),
            None => None,
        }
    }
}

/// A key is found with the block of its last row, and one that no row has is not found.
pub proof fn lemma_last_row_found(rows: Seq<(Seq<u8>, u64)>, key: Seq<u8>, n: int)
    requires
        0 <= n <= rows.len(),
    ensures
        found_in(rows_after(rows, n), key) is None <==> forall|i: int|
            0 <= i < n ==> (#[trigger] rows[i]).0 != key,
        forall|i: int|
            0 <= i < n && (#[trigger] rows[i]).0 == key && (forall|j: int|
                i < j < n ==> (#[trigger] rows[j]).0 != key) ==> found_in(
                rows_after(rows, n),
                key,
            ) == Some(rows[i].1),
    decreases n,
{
    if n > 0 {
        lemma_last_row_found(rows, key, n - 1);
        assert forall|i: int|
            0 <= i < n && (#[trigger] rows[i]).0 == key && (forall|j: int|
                i < j < n ==> (#[trigger] rows[j]).0 != key) implies found_in(
            rows_after(rows, n),
            key,
        ) == Some(rows[i].1) by {
            if i < n - 1 {
                assert(rows[n - 1].0 != key);
            }
        }
    }
}

} // verus!
