//! Signers known by the gas limit that their transactions carry.
use crate::bytes::{be_value, lemma_pow256, number_at};
use crate::hex::{address_of, address_text, checksum_text, decode, decoded_hex, parse_address};
use std::collections::HashMap;
use vstd::prelude::*;
use vstd::utf8::encode_utf8;

verus! {

/// An account and its key.
#[derive(Debug)]
pub struct Account {
    pub private_key: String,
    pub address: String,
}

/// The accounts that send transactions, and where they send them.
#[derive(Debug)]
pub struct Config {
    pub rpc_urls: Vec<String>,
    pub chain_id: u64,
    pub erc20_address: String,
    pub source_account: Account,
    pub test_accounts: Vec<Account>,
}

impl Config {
    /// The addresses of all accounts, that of the source account first.
    pub open spec fn addresses(&self) -> Seq<Seq<char>> {
        seq![self.source_account.address@] + Seq::new(
            self.test_accounts@.len(),
            |i: int| self.test_accounts@[i].address@,
        )
    }
}

/// The text without the `0x` that it may start with.
pub open spec fn without_0x(text: Seq<u8>) -> Seq<u8> {
    if text.len() >= 2 && text[0] == 0x30 && text[1] == 0x78 {
        text.skip(2)
    } else {
        text
    }
}

/// The gas limit of the transactions of an address: 21000, and the number that the first four
/// bytes of the address stand for modulo 60000. It is 21000 for a text that is not hexadecimal or
/// stands for fewer bytes.
pub open spec fn gas_limit_of(address: Seq<char>) -> u64 {
    match decoded_hex(without_0x(encode_utf8(address))) {
        Some(bytes) => if bytes.len() < 4 {
            21000
        } else {
            (be_value(bytes.subrange(0, 4)) % 60000 + 21000) as u64
        },
        None => 21000,
    }
}

/// The gas limit of the transactions of an address.
pub fn calculate_gas_limit(address: &str) -> (r: u64)
    ensures
        r == gas_limit_of(address@),
        21000 <= r < 81000,
{
    let text = address.as_bytes();
    let has_prefix: bool = text.len() >= 2 && text[0] == 0x30 && text[1] == 0x78;
    let clean = if has_prefix {
        vstd::slice::slice_subrange(text, 2, text.len())
    } else {
        text
    };
    assert(clean@ =~= without_0x(text@));
    match decode(clean) {
        Ok(bytes) => {
            if bytes.len() < 4 {
                return 21000;
            }
            proof {
                lemma_pow256();
            }
            let gas_base: u64 = number_at(bytes.as_slice(), 0, 4) as u64;
            gas_base % 60000 + 21000
        },
        Err(_) => 21000,
    }
}

/// Addresses by gas limit.
#[derive(Debug)]
pub struct GasMap {
    addresses: HashMap<u64, String>,
}

impl View for GasMap {
    type V = Map<u64, Seq<char>>;

    closed spec fn view(&self) -> Map<u64, Seq<char>> {
        self.addresses@.map_values(|address: String| address@)
    }
}

/// The addresses by their gas limits; of two with the same gas limit, the later one.
pub open spec fn by_gas_limit(addresses: Seq<Seq<char>>) -> Map<u64, Seq<char>>
    decreases addresses.len(),
{
    if addresses.len() == 0 {
        Map::empty()
    } else {
        by_gas_limit(addresses.drop_last()).insert(
            gas_limit_of(addresses.last()),
            addresses.last(),
        )
    }
}

impl GasMap {
    /// The map without entries.
    pub fn new() -> (r: Self)
        ensures
            r@ == Map::<u64, Seq<char>>::empty(),
    {
        let r = GasMap { addresses: HashMap::new() };
        assert(r@ =~= Map::<u64, Seq<char>>::empty());
        r
    }

    /// Sets the address of a gas limit.
    pub fn insert(&mut self, gas: u64, address: String)
        ensures
            final(self)@ == old(self)@.insert(gas, address@),
    {
        broadcast use vstd::std_specs::hash::group_hash_axioms;

        self.addresses.insert(gas, address);
        assert(self@ =~= old(self)@.insert(gas, address@));
    }

    /// The address of a gas limit.
    pub fn get(&self, gas: u64) -> (r: Option<&String>)
        ensures
            match r {
                Some(address) => self@.dom().contains(gas) && self@[gas] == address@,
                None => !self@.dom().contains(gas),
            },
    {
        broadcast use vstd::std_specs::hash::group_hash_axioms;

        self.addresses.get(&gas)
    }
}

/// The addresses of all accounts by their gas limits.
pub fn init_gas_map(config: &Config) -> (r: GasMap)
    ensures
        r@ == by_gas_limit(config.addresses()),
{
    let ghost all = config.addresses();
    let mut map = GasMap::new();
    let source_gas: u64 = calculate_gas_limit(config.source_account.address.as_str());
    map.insert(source_gas, config.source_account.address.clone());
    proof {
        assert(all.take(1) =~= seq![config.source_account.address@]);
        assert(all.take(1).drop_last() =~= Seq::empty());
        assert(by_gas_limit(Seq::empty()) == Map::<u64, Seq<char>>::empty());
    }
    let mut i: usize = 0;
    while i < config.test_accounts.len()
        invariant
            all == config.addresses(),
            i <= config.test_accounts@.len(),
            map@ == by_gas_limit(all.take(i + 1)),
        decreases config.test_accounts@.len() - i,
    {
        let account = &config.test_accounts[i];
        let gas: u64 = calculate_gas_limit(account.address.as_str());
        map.insert(gas, account.address.clone());
        proof {
            assert(all.take(i + 2).drop_last() =~= all.take(i + 1));
            assert(all.take(i + 2).last() == account.address@);
        }
        i = i + 1;
    }
    assert(all.take(i + 1) =~= all);
    map
}

/// The address that is known for the gas limit.
pub fn get_address(map: &GasMap, gas: u64) -> (r: Option<String>)
    ensures
        match r {
            Some(address) => map@.dom().contains(gas) && map@[gas] == address@,
            None => !map@.dom().contains(gas),
        },
{
    match map.get(gas) {
        Some(address) => Some(address.clone()),
        None => None,
    }
}

/// The signers that are noted by gas limit; where the cache is disabled, none are.
#[derive(Debug)]
pub enum SignerCache {
    Disabled,
    Enabled(GasMap),
}

impl View for SignerCache {
    type V = Option<Map<u64, Seq<char>>>;

    open spec fn view(&self) -> Option<Map<u64, Seq<char>>> {
        match self {
            SignerCache::Disabled => None,
            SignerCache::Enabled(map) => Some(map@),
        }
    }
}

/// Whether what is known for the gas limit, if anything is, is an address.
pub open spec fn is_readable(cache: Option<Map<u64, Seq<char>>>, gas: u64) -> bool {
    match cache {
        Some(map) => map.dom().contains(gas) ==> address_of(map[gas]) is Some,
        None => true,
    }
}

/// The cache afterwards: a signer that was not known for the gas limit is known from now on.
pub open spec fn cache_after(
    cache: Option<Map<u64, Seq<char>>>,
    gas: u64,
    signer: Option<Seq<u8>>,
) -> Option<Map<u64, Seq<char>>> {
    match (cache, signer) {
        (Some(map), Some(address)) => if map.dom().contains(gas) {
            cache
        } else {
            Some(map.insert(gas, checksum_text(address)))
        },
        _ => cache,
    }
}

impl SignerCache {
    /// Whether what is known for the gas limit, if anything is, is an address.
    pub fn is_readable(&self, gas: u64) -> (r: bool)
        ensures
            r == is_readable(self@, gas),
    {
        match self {
            SignerCache::Enabled(map) => match map.get(gas) {
                Some(address) => parse_address(address.as_str()).is_ok(),
                None => true,
            },
            SignerCache::Disabled => true,
        }
    }

    /// The address that is known for the gas limit.
    pub fn known(&self, gas: u64) -> (r: Option<[u8; 20]>)
        requires
            is_readable(self@, gas),
        ensures
            match r {
                Some(address) => {
                    &&& self@ matches Some(map)
                    &&& map.dom().contains(gas)
                    &&& address_of(map[gas]) == Some(address@)
                },
                None => self@ matches Some(map) ==> !map.dom().contains(gas),
            },
    {
        match self {
            SignerCache::Disabled => None,
            SignerCache::Enabled(map) => match get_address(map, gas) {
                Some(address) => match parse_address(address.as_str()) {
                    Ok(signer) => Some(signer),
                    Err(_) => None,
                },
                None => None,
            },
        }
    }

    /// Notes the signer of the gas limit, where signers are noted and none is known for it.
    pub fn learn(&mut self, gas: u64, signer: &[u8; 20])
        ensures
            final(self)@ == cache_after(old(self)@, gas, Some(signer@)),
    {
        match self {
            SignerCache::Disabled => {},
            SignerCache::Enabled(map) => {
                if map.get(gas).is_none() {
                    map.insert(gas, address_text(signer));
                }
            },
        }
    }
}

} // verus!
