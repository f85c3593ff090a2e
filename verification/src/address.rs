//! Host addresses in the notation that SOCKS5 and Trojan share: a type byte, then
//! the bytes of the address or the length and the bytes of the domain.

use crate::bytes;
use crate::flow::{DestinationHost, HostView};
use crate::net::IpAddr;
use vstd::prelude::*;
use vstd::string::*;

verus! {

/// Why a domain has no notation.
#[derive(Clone, Copy, Debug, PartialEq, Eq, Structural)]
pub enum AddressError {
    TooLong,
    Empty,
}

/// The notation of a host.
pub open spec fn encoded_host(host: HostView) -> Result<Seq<u8>, AddressError> {
    match host {
        HostView::Ip(IpAddr::V4(a)) => Ok(seq![1u8] + bytes::be_bytes(a as nat, 4)),
        HostView::Ip(IpAddr::V6(a)) => Ok(seq![4u8] + bytes::be_bytes(a as nat, 16)),
        HostView::Domain(d) => {
            let b = vstd::utf8::encode_utf8(d);
            if b.len() > 255 {
                Err(AddressError::TooLong)
            } else if b.len() == 0 {
                Err(AddressError::Empty)
            } else {
                Ok(seq![3u8, b.len() as u8] + b)
            }
        },
    }
}

/// Appends the notation of a host, or nothing where it has none.
pub fn encode_host(out: &mut Vec<u8>, host: &DestinationHost) -> (r: Result<(), AddressError>)
    ensures
        match r {
            Ok(_) => encoded_host(host@) matches Ok(b) && final(out)@ == old(out)@ + b,
            Err(e) => encoded_host(host@) == Err::<Seq<u8>, AddressError>(e) && final(out)@ == old(
                out,
            )@,
        },
{
    match host {
        DestinationHost::Ip(IpAddr::V4(a)) => {
            out.push(1u8);
            bytes::push_be(out, *a as u128, 4);
            assert(out@ == old(out)@ + encoded_host(host@)->Ok_0);
            Ok(())
        },
        DestinationHost::Ip(IpAddr::V6(a)) => {
            out.push(4u8);
            bytes::push_be(out, *a, 16);
            assert(out@ == old(out)@ + encoded_host(host@)->Ok_0);
            Ok(())
        },
        DestinationHost::Domain(d) => {
            let b = d.as_str().as_bytes();
            if b.len() > 255 {
                return Err(AddressError::TooLong);
            }
            if b.len() == 0 {
                return Err(AddressError::Empty);
            }
            out.push(3u8);
            out.push(b.len() as u8);
            bytes::push_all(out, b);
            assert(out@ == old(out)@ + encoded_host(host@)->Ok_0);
            Ok(())
        },
    }
}

/// Four or sixteen bytes as an address.
pub open spec fn address_of(b: Seq<u8>) -> IpAddr {
    if b.len() == 4 {
        IpAddr::V4(bytes::be_value(b) as u32)
    } else {
        IpAddr::V6(bytes::be_value(b) as u128)
    }
}

/// Reads four or sixteen bytes as an address.
pub fn read_address(b: &[u8]) -> (r: IpAddr)
    requires
        b@.len() == 4 || b@.len() == 16,
    ensures
        r == address_of(b@),
{
    proof {
        bytes::lemma_be_value_bound(b@);
        bytes::lemma_pow256();
    }
    if b.len() == 4 {
        IpAddr::V4(bytes::read_be(b) as u32)
    } else {
        IpAddr::V6(bytes::read_be(b))
    }
}

/// An address that was written as bytes is read back.
pub proof fn lemma_address_round_trip(a: IpAddr)
    ensures
        match a {
            IpAddr::V4(n) => bytes::be_bytes(n as nat, 4).len() == 4 && address_of(
                bytes::be_bytes(n as nat, 4),
            ) == a,
            IpAddr::V6(n) => bytes::be_bytes(n as nat, 16).len() == 16 && address_of(
                bytes::be_bytes(n as nat, 16),
            ) == a,
        },
{
    bytes::lemma_pow256();
    match a {
        IpAddr::V4(n) => bytes::lemma_be_round_trip(n as nat, 4),
        IpAddr::V6(n) => bytes::lemma_be_round_trip(n as nat, 16),
    }
}

/// An address is written as its kind and its bytes, 4 or 16 of them, and is read back from
/// those. A domain is written as its kind, its length and its bytes, and can be written when it
/// has 1 to 255 of them.
pub proof fn law_written_host_is_read_back(host: HostView)
    ensures
        match host {
            HostView::Ip(a) => encoded_host(host) matches Ok(b) && {
                &&& b[0] == if a is V4 {
                    1u8
                } else {
                    4u8
                }
                &&& b.len() == 1 + if a is V4 {
                    4int
                } else {
                    16
                }
                &&& address_of(b.skip(1)) == a
            },
            HostView::Domain(d) => {
                let e = vstd::utf8::encode_utf8(d);
                &&& encoded_host(host) is Ok <==> 1 <= e.len() <= 255
                &&& encoded_host(host) matches Ok(b) ==> b[0] == 3 && b[1] == e.len() && b.skip(2)
                    == e
            },
        },
{
    match host {
        HostView::Ip(a) => {
            lemma_address_round_trip(a);
            let b = encoded_host(host)->Ok_0;
            match a {
                IpAddr::V4(n) => {
                    assert(b.skip(1) =~= bytes::be_bytes(n as nat, 4));
                },
                IpAddr::V6(n) => {
                    assert(b.skip(1) =~= bytes::be_bytes(n as nat, 16));
                },
            }
        },
        HostView::Domain(d) => {
            let e = vstd::utf8::encode_utf8(d);
            if 1 <= e.len() <= 255 {
                assert(encoded_host(host)->Ok_0.skip(2) =~= e);
            }
        },
    }
}

} // verus!
