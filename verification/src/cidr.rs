//! Canonical IP networks.

use crate::net;
use crate::net::IpAddr;
use crate::text;
use crate::text::Class;
use vstd::arithmetic::power2::{lemma_pow2_pos, lemma_pow2_strictly_increases, lemma_pow2_unfold};
use vstd::prelude::*;
use vstd::string::*;

verus! {

/// Canonical IP network used by native policy matchers: `network` has no bit
/// set behind its first `prefix` bits.
#[allow(inconsistent_fields)]
#[derive(Clone, Copy, Debug, PartialEq, Eq, Hash, Structural)]
pub enum IpCidr {
    V4 { network: u32, prefix: u8 },
    V6 { network: u128, prefix: u8 },
}

#[derive(Clone, Copy, Debug, PartialEq, Eq, Structural)]
pub enum CidrParseError {
    MissingPrefix,
    InvalidAddress,
    InvalidPrefix,
    PrefixOutOfRange,
}

/// `address` with its lowest `bits` bits cleared.
pub open spec fn truncated(address: nat, bits: nat) -> nat {
    (address - address % vstd::arithmetic::power2::pow2(bits)) as nat
}

/// The network that a text denotes: an address, a slash and a prefix length.
pub open spec fn cidr(s: Seq<char>) -> Result<IpCidr, CidrParseError> {
    let n = text::leading(s, Class::IsNot('/')) as int;
    if n >= s.len() {
        Err(CidrParseError::MissingPrefix)
    } else {
        match net::ip(s.take(n)) {
            None => Err(CidrParseError::InvalidAddress),
            Some(address) => match text::number(s.skip(n + 1), 255) {
                None => Err(CidrParseError::InvalidPrefix),
                Some(prefix) => match address {
                    IpAddr::V4(a) => if prefix <= 32 {
                        Ok(
                            IpCidr::V4 {
                                network: truncated(a as nat, (32 - prefix) as nat) as u32,
                                prefix: prefix as u8,
                            },
                        )
                    } else {
                        Err(CidrParseError::PrefixOutOfRange)
                    },
                    IpAddr::V6(a) => if prefix <= 128 {
                        Ok(
                            IpCidr::V6 {
                                network: truncated(a as nat, (128 - prefix) as nat) as u128,
                                prefix: prefix as u8,
                            },
                        )
                    } else {
                        Err(CidrParseError::PrefixOutOfRange)
                    },
                },
            },
        }
    }
}

proof fn lemma_pow2_128()
    ensures
        vstd::arithmetic::power2::pow2(128) == 0x1_0000_0000_0000_0000_0000_0000_0000_0000,
{
    vstd::arithmetic::power2::lemma2_to64();
    vstd::arithmetic::power2::lemma_pow2_adds(64, 64);
    assert(0x1_0000_0000_0000_0000int * 0x1_0000_0000_0000_0000int
        == 0x1_0000_0000_0000_0000_0000_0000_0000_0000int) by (nonlinear_arith);
}

fn truncate(address: u128, bits: u8) -> (r: u128)
    requires
        bits <= 128,
    ensures
        r == truncated(address as nat, bits as nat),
        r <= address,
{
    if bits == 128 {
        proof {
            lemma_pow2_128();
            assert(address as nat % 0x1_0000_0000_0000_0000_0000_0000_0000_0000nat
                == address as nat);
        }
        return 0;
    }
    let mut step: u128 = 1;
    let mut k: u8 = 0;
    proof {
        vstd::arithmetic::power2::lemma2_to64();
        lemma_pow2_128();
    }
    while k < bits
        invariant
            k <= bits < 128,
            step == vstd::arithmetic::power2::pow2(k as nat),
            vstd::arithmetic::power2::pow2(128)
                == 0x1_0000_0000_0000_0000_0000_0000_0000_0000,
        decreases bits - k,
    {
        proof {
            lemma_pow2_unfold((k + 1) as nat);
            lemma_pow2_strictly_increases((k + 1) as nat, 128);
        }
        step = step * 2;
        k = k + 1;
    }
    proof {
        lemma_pow2_pos(bits as nat);
        vstd::arithmetic::div_mod::lemma_mod_decreases(address as nat, step as nat);
    }
    address - address % step
}

impl CidrParseError {
    pub open spec fn spec_text(self) -> Seq<char> {
        match self {
            CidrParseError::MissingPrefix => "CIDR prefix is required"@,
            CidrParseError::InvalidAddress => "invalid CIDR address"@,
            CidrParseError::InvalidPrefix => "invalid CIDR prefix"@,
            CidrParseError::PrefixOutOfRange => "CIDR prefix is out of range"@,
        }
    }

    /// The message.
    pub fn text(self) -> (r: String)
        ensures
            r@ == self.spec_text(),
    {
        match self {
            CidrParseError::MissingPrefix => "CIDR prefix is required".to_owned(),
            CidrParseError::InvalidAddress => "invalid CIDR address".to_owned(),
            CidrParseError::InvalidPrefix => "invalid CIDR prefix".to_owned(),
            CidrParseError::PrefixOutOfRange => "CIDR prefix is out of range".to_owned(),
        }
    }
}

impl IpCidr {
    /// The prefix fits the family, and no bit behind it is set.
    pub open spec fn wf(self) -> bool {
        match self {
            IpCidr::V4 { network, prefix } => prefix <= 32 && network == truncated(
                network as nat,
                (32 - prefix) as nat,
            ),
            IpCidr::V6 { network, prefix } => prefix <= 128 && network == truncated(
                network as nat,
                (128 - prefix) as nat,
            ),
        }
    }

    /// The prefix fits the family.
    pub open spec fn fits(self) -> bool {
        match self {
            IpCidr::V4 { prefix, .. } => prefix <= 32,
            IpCidr::V6 { prefix, .. } => prefix <= 128,
        }
    }

    /// The address has the network's family and its first `prefix` bits.
    pub open spec fn has(self, address: IpAddr) -> bool {
        match (self, address) {
            (IpCidr::V4 { network, prefix }, IpAddr::V4(a)) => truncated(
                a as nat,
                (32 - prefix) as nat,
            ) == network,
            (IpCidr::V6 { network, prefix }, IpAddr::V6(a)) => truncated(
                a as nat,
                (128 - prefix) as nat,
            ) == network,
            _ => false,
        }
    }

    pub fn contains(self, address: IpAddr) -> (r: bool)
        requires
            (self is V4) == (address is V4) ==> self.fits(),
        ensures
            r == self.has(address),
    {
        match (self, address) {
            (IpCidr::V4 { network, prefix }, IpAddr::V4(a)) => truncate(a as u128, 32 - prefix)
                == network as u128,
            (IpCidr::V6 { network, prefix }, IpAddr::V6(a)) => truncate(a, 128 - prefix) == network,
            _ => false,
        }
    }

    /// Reads a network.
    pub fn parse(s: &[char]) -> (r: Result<IpCidr, CidrParseError>)
        ensures
            r == cidr(s@),
            r is Ok ==> r->Ok_0.wf(),
    {
        let n: usize = text::leading_len(s, Class::IsNot('/'));
        if n >= s.len() {
            return Err(CidrParseError::MissingPrefix);
        }
        let address = match net::ip_of(&s[0..n]) {
            Some(a) => a,
            None => {
                return Err(CidrParseError::InvalidAddress);
            },
        };
        let prefix: u8 = match text::number_of(&s[n + 1..s.len()], 255) {
            Some(p) => p as u8,
            None => {
                return Err(CidrParseError::InvalidPrefix);
            },
        };
        match address {
            IpAddr::V4(a) => if prefix <= 32 {
                proof {
                    lemma_truncated_twice(a as nat, (32 - prefix) as nat);
                }
                Ok(IpCidr::V4 { network: truncate(a as u128, 32 - prefix) as u32, prefix })
            } else {
                Err(CidrParseError::PrefixOutOfRange)
            },
            IpAddr::V6(a) => if prefix <= 128 {
                proof {
                    lemma_truncated_twice(a as nat, (128 - prefix) as nat);
                }
                Ok(IpCidr::V6 { network: truncate(a, 128 - prefix), prefix })
            } else {
                Err(CidrParseError::PrefixOutOfRange)
            },
        }
    }
}

impl core::str::FromStr for IpCidr {
    type Err = CidrParseError;

    fn from_str(s: &str) -> (r: Result<IpCidr, CidrParseError>)
        ensures
            r == cidr(s@),
            r is Ok ==> r->Ok_0.wf(),
    {
        let chars = text::chars_of(s);
        IpCidr::parse(chars.as_slice())
    }
}

proof fn lemma_truncated_twice(a: nat, bits: nat)
    ensures
        truncated(truncated(a, bits), bits) == truncated(a, bits),
        truncated(a, bits) <= a,
{
    let p = vstd::arithmetic::power2::pow2(bits) as int;
    lemma_pow2_pos(bits);
    let q = a as int / p;
    assert(a as int - a as int % p == p * q) by {
        vstd::arithmetic::div_mod::lemma_fundamental_div_mod(a as int, p);
    }
    assert(p * q == q * p) by (nonlinear_arith);
    vstd::arithmetic::div_mod::lemma_mod_multiples_basic(q, p);
}

/// The address families do not match across: an IPv4 network holds no IPv6
/// address, and the other way round.
pub proof fn law_families_do_not_cross_match(network: IpCidr, address: IpAddr)
    ensures
        network is V4 && address is V6 ==> !network.has(address),
        network is V6 && address is V4 ==> !network.has(address),
{
}

/// A network of prefix length zero holds every address of its family.
pub proof fn law_zero_prefix_matches_all(network: IpCidr, address: IpAddr)
    requires
        network.wf(),
    ensures
        network matches IpCidr::V4 { prefix: 0u8, .. } && address is V4 ==> network.has(address),
        network matches IpCidr::V6 { prefix: 0u8, .. } && address is V6 ==> network.has(address),
{
    vstd::arithmetic::power2::lemma2_to64();
    lemma_pow2_128();
    match (network, address) {
        (IpCidr::V4 { network: n, .. }, IpAddr::V4(a)) => {
            vstd::arithmetic::div_mod::lemma_small_mod(a as nat, 0x1_0000_0000);
            vstd::arithmetic::div_mod::lemma_small_mod(n as nat, 0x1_0000_0000);
        },
        (IpCidr::V6 { network: n, .. }, IpAddr::V6(a)) => {
            let all: nat = 0x1_0000_0000_0000_0000_0000_0000_0000_0000nat;
            vstd::arithmetic::div_mod::lemma_small_mod(a as nat, all);
            vstd::arithmetic::div_mod::lemma_small_mod(n as nat, all);
        },
        _ => {},
    }
}

/// A network of full prefix length holds its own address alone.
pub proof fn law_full_prefix_matches_one(network: IpCidr, address: IpAddr)
    ensures
        network matches IpCidr::V4 { network: n, prefix: 32u8 } ==> (network.has(address)
            <==> address == IpAddr::V4(n)),
        network matches IpCidr::V6 { network: n, prefix: 128u8 } ==> (network.has(address)
            <==> address == IpAddr::V6(n)),
{
    vstd::arithmetic::power2::lemma2_to64();
}

/// The address that a network was written with belongs to it.
pub proof fn law_written_address_is_contained(s: Seq<char>)
    requires
        cidr(s) is Ok,
    ensures
        cidr(s)->Ok_0.has(net::ip(s.take(text::leading(s, Class::IsNot('/')) as int)).unwrap()),
{
    let n = text::leading(s, Class::IsNot('/')) as int;
    let prefix = text::number(s.skip(n + 1), 255).unwrap();
    match net::ip(s.take(n)).unwrap() {
        IpAddr::V4(a) => lemma_truncated_twice(a as nat, (32 - prefix) as nat),
        IpAddr::V6(a) => lemma_truncated_twice(a as nat, (128 - prefix) as nat),
    }
}

/// A network holds the addresses of its family that begin with the same bits as its
/// own address, as many as its prefix says.
pub proof fn law_network_holds_addresses_with_its_prefix(network: IpCidr, address: IpAddr)
    requires
        network.wf(),
    ensures
        match (network, address) {
            (IpCidr::V4 { network: n, prefix }, IpAddr::V4(a)) => {
                let block = vstd::arithmetic::power2::pow2((32 - prefix) as nat);
                network.has(address) <==> a as nat / block == n as nat / block
            },
            (IpCidr::V6 { network: n, prefix }, IpAddr::V6(a)) => {
                let block = vstd::arithmetic::power2::pow2((128 - prefix) as nat);
                network.has(address) <==> a as nat / block == n as nat / block
            },
            _ => !network.has(address),
        },
{
    match (network, address) {
        (IpCidr::V4 { network: n, prefix }, IpAddr::V4(a)) => {
            lemma_same_block(a as nat, n as nat, (32 - prefix) as nat);
        },
        (IpCidr::V6 { network: n, prefix }, IpAddr::V6(a)) => {
            lemma_same_block(a as nat, n as nat, (128 - prefix) as nat);
        },
        _ => {},
    }
}

proof fn lemma_same_block(a: nat, n: nat, bits: nat)
    requires
        n == truncated(n, bits),
    ensures
        truncated(a, bits) == n <==> a / vstd::arithmetic::power2::pow2(bits) == n
            / vstd::arithmetic::power2::pow2(bits),
{
    let p = vstd::arithmetic::power2::pow2(bits) as int;
    lemma_pow2_pos(bits);
    vstd::arithmetic::div_mod::lemma_fundamental_div_mod(a as int, p);
    vstd::arithmetic::div_mod::lemma_fundamental_div_mod(n as int, p);
    let (qa, qn) = (a as int / p, n as int / p);
    assert(a as int % p <= a as int) by {
        vstd::arithmetic::div_mod::lemma_mod_decreases(a, p as nat);
    }
    assert(n as int % p <= n as int) by {
        vstd::arithmetic::div_mod::lemma_mod_decreases(n, p as nat);
    }
    assert(truncated(a, bits) == p * qa);
    assert(truncated(n, bits) == p * qn);
    assert(p * qa == p * qn ==> qa == qn) by (nonlinear_arith)
        requires
            p > 0,
    ;
}

/// A network is read from an address, a slash and a prefix length that its family can
/// have; all addresses with the same first bits are in the network that is read.
pub proof fn law_network_is_read(address: Seq<char>, prefix: Seq<char>)
    requires
        forall|i: int| 0 <= i < address.len() ==> #[trigger] address[i] != '/',
    ensures
        ({
            let s = address + seq!['/'] + prefix;
            cidr(s) is Ok <==> (net::ip(address) matches Some(a) && (text::number(prefix, 255)
                matches Some(p) && p <= (if a is V4 {
                32int
            } else {
                128int
            })))
        }),
        cidr(address) is Err,
        ({
            let s = address + seq!['/'] + prefix;
            cidr(s) matches Ok(network) ==> {
                let p = text::number(prefix, 255)->Some_0;
                &&& network matches IpCidr::V4 { prefix: q, .. } ==> net::ip(address)->Some_0 is V4
                    && q == p
                &&& network matches IpCidr::V6 { prefix: q, .. } ==> net::ip(address)->Some_0 is V6
                    && q == p
                &&& network.has(net::ip(address)->Some_0)
            }
        }),
{
    let s = address + seq!['/'] + prefix;
    let k = Class::IsNot('/');
    assert forall|i: int| 0 <= i < address.len() implies k.has(#[trigger] s[i]) by {
        assert(s[i] == address[i]);
    }
    assert(s[address.len() as int] == '/');
    text::lemma_leading_is(s, k, address.len());
    assert(s.take(address.len() as int) =~= address);
    assert(s.skip(address.len() as int + 1) =~= prefix);
    text::lemma_leading_is(address, k, address.len());
    if cidr(s) is Ok {
        law_written_address_is_contained(s);
    }
}

} // verus!
