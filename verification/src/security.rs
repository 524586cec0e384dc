//! The client's address: taken from X-Forwarded-For only behind a trusted
//! proxy, and stored only as an HMAC.
use vstd::prelude::*;

use crate::error::AppError;
use crate::net::{addr_parts, spec_contains, IpAddress, IpNetwork};
use crate::text::{chars_of, copy_range, string_from_chars, trim, trim_chars};
use crate::tripcode::hash_ip;
use crate::views::spec_decimal;

verus! {

/// What std's `IpAddr` parser makes of some text: whether it is IPv6, and the
/// octets; `None` where the text is no address.
pub uninterp spec fn parsed_ip(text: Seq<char>) -> Option<(bool, Seq<u8>)>;

/// What std's `Display` writes for an address given as (IPv6?, octets).
pub uninterp spec fn ip_display(v6: bool, octets: Seq<u8>) -> Seq<char>;

/// The dotted-decimal form of four octets.
pub open spec fn dotted_quad(o: Seq<u8>) -> Seq<char> {
    spec_decimal(o[0] as int) + "."@ + spec_decimal(o[1] as int) + "."@ + spec_decimal(
        o[2] as int,
    ) + "."@ + spec_decimal(o[3] as int)
}

/// `<IpAddr as FromStr>::from_str`, converted to octets. The contract names the
/// outcome for exactly this text.
#[verifier::external_body]
fn parse_ip(text: &str) -> (res: Option<IpAddress>)
    ensures
        match res {
            Some(ip) => parsed_ip(text@) == Some(addr_parts(ip)),
            None => parsed_ip(text@) is None,
        },
{
    match text.parse::<core::net::IpAddr>() {
        Ok(core::net::IpAddr::V4(a)) => Some(IpAddress::V4(a.octets())),
        Ok(core::net::IpAddr::V6(a)) => Some(IpAddress::V6(a.octets())),
        Err(_) => None,
    }
}

/// `<IpAddr as Display>::to_string`. The contract names the text of exactly this
/// address and states the documented form of IPv4 addresses, `a.b.c.d` in
/// decimal; the IPv6 form is left to the name.
#[verifier::external_body]
fn ip_to_string(ip: &IpAddress) -> (res: String)
    ensures
        res@ == ip_display(addr_parts(*ip).0, addr_parts(*ip).1),
        !addr_parts(*ip).0 ==> res@ == dotted_quad(addr_parts(*ip).1),
{
    match ip {
        IpAddress::V4(o) => core::net::IpAddr::from(*o).to_string(),
        IpAddress::V6(o) => core::net::IpAddr::from(*o).to_string(),
    }
}

/// Whether some network of the list contains the address.
pub open spec fn spec_is_trusted(ip: IpAddress, trusted: Seq<IpNetwork>) -> bool {
    exists|i: int| 0 <= i < trusted.len() && spec_contains(#[trigger] trusted[i], ip)
}

/// Whether the peer is one of the trusted proxies of the configuration.
pub fn is_trusted_proxy(ip: &IpAddress, trusted: &[IpNetwork]) -> (res: bool)
    ensures
        res == spec_is_trusted(*ip, trusted@),
{
    for i in 0..trusted.len()
        invariant
            forall|j: int| 0 <= j < i ==> !spec_contains(#[trigger] trusted@[j], *ip),
    {
        if trusted[i].contains(ip) {
            return true;
        }
    }
    false
}

/// The first comma-separated entry of a header value.
pub open spec fn first_entry(v: Seq<char>) -> Seq<char> {
    if exists|i: int| 0 <= i < v.len() && #[trigger] v[i] == ',' {
        let i = choose|i: int|
            0 <= i < v.len() && #[trigger] v[i] == ',' && forall|j: int| 0 <= j < i ==> v[j] != ',';
        v.subrange(0, i)
    } else {
        v
    }
}

/// The client address: the peer itself unless it is a trusted proxy; behind
/// one, the first X-Forwarded-For entry (trimmed) where it parses as an address.
pub open spec fn spec_client_ip(
    forwarded_for: Option<Seq<char>>,
    direct: IpAddress,
    trusted: Seq<IpNetwork>,
) -> (bool, Seq<u8>) {
    if !spec_is_trusted(direct, trusted) {
        addr_parts(direct)
    } else {
        match forwarded_for {
            Some(v) => match parsed_ip(trim(first_entry(v))) {
                Some(p) => p,
                None => addr_parts(direct),
            },
            None => addr_parts(direct),
        }
    }
}

/// The forwarded header is heeded only from a trusted proxy: for any other
/// peer the client is the peer itself, whatever the header says; and without
/// a header the client is the peer in any case.
pub proof fn lemma_forwarded_only_from_trusted(
    forwarded_for: Option<Seq<char>>,
    direct: IpAddress,
    trusted: Seq<IpNetwork>,
)
    ensures
        !spec_is_trusted(direct, trusted) ==> spec_client_ip(forwarded_for, direct, trusted)
            == addr_parts(direct),
        spec_client_ip(None, direct, trusted) == addr_parts(direct),
{
}

/// Behind a trusted proxy the client is the first entry of the forwarded
/// header: for a header `e, rest` (with `e` holding no comma), what counts is
/// `e`, trimmed, whatever follows; a header without a comma counts whole.
pub proof fn lemma_first_forwarded_entry(e: Seq<char>, rest: Seq<char>)
    requires
        forall|i: int| 0 <= i < e.len() ==> e[i] != ',',
    ensures
        first_entry(e + seq![','] + rest) == e,
        first_entry(e) == e,
{
    let v = e + seq![','] + rest;
    let n = e.len() as int;
    assert(v[n] == ',');
    let c = choose|i: int|
        0 <= i < v.len() && #[trigger] v[i] == ',' && forall|j: int| 0 <= j < i ==> v[j] != ',';
    assert(0 <= n < v.len() && v[n] == ',' && forall|j: int| 0 <= j < n ==> v[j] != ',') by {
        assert forall|j: int| 0 <= j < n implies v[j] != ',' by {
            assert(v[j] == e[j]);
        }
    }
    assert(c == n) by {
        if c < n {
            assert(v[c] == e[c]);
        } else if c > n {
            assert(v[n] != ',');
        }
    }
    assert(v.subrange(0, n) =~= e);
    assert(!exists|i: int| 0 <= i < e.len() && #[trigger] e[i] == ',');
}

/// The part of a header value before its first comma.
fn first_entry_of(v: &str) -> (res: Vec<char>)
    ensures
        res@ == first_entry(v@),
{
    let chars = chars_of(v);
    let mut i: usize = 0;
    while i < chars.len() && chars[i] != ','
        invariant
            i <= chars@.len(),
            chars@ == v@,
            forall|j: int| 0 <= j < i ==> chars@[j] != ',',
        decreases chars@.len() - i,
    {
        i = i + 1;
    }
    if i < chars.len() {
        proof {
            let c = choose|k: int|
                0 <= k < v@.len() && #[trigger] v@[k] == ',' && forall|j: int|
                    0 <= j < k ==> v@[j] != ',';
            assert(0 <= i < v@.len() && v@[i as int] == ',' && forall|j: int|
                0 <= j < i ==> v@[j] != ',');
            assert(c == i) by {
                if c < i {
                    assert(v@[c] != ',');
                } else if c > i {
                    assert(v@[i as int] != ',');
                }
            }
        }
    } else {
        assert(chars@.subrange(0, i as int) =~= chars@);
    }
    copy_range(chars.as_slice(), 0, i)
}

/// Determines the client address from the peer address and the forwarded header.
pub fn client_ip(forwarded_for: Option<&str>, direct: IpAddress, trusted: &[IpNetwork]) -> (res:
    IpAddress)
    ensures
        addr_parts(res) == spec_client_ip(
            match forwarded_for {
                Some(v) => Some(v@),
                None => None,
            },
            direct,
            trusted@,
        ),
{
    if !is_trusted_proxy(&direct, trusted) {
        return direct;
    }
    if let Some(v) = forwarded_for {
        let first = first_entry_of(v);
        let t = trim_chars(first.as_slice());
        let text = string_from_chars(t.as_slice());
        if let Some(ip) = parse_ip(text.as_str()) {
            return ip;
        }
    }
    direct
}

/// Access to the moderators' pages: `session` is `None` without a session
/// cookie, else whether the store holds that session as valid. Anything but a
/// valid session is forbidden.
pub fn session_access(session: Option<bool>) -> (res: Result<(), AppError>)
    ensures
        match session {
            Some(true) => res is Ok,
            _ => res matches Err(AppError::Forbidden),
        },
{
    match session {
        Some(true) => Ok(()),
        _ => Err(AppError::Forbidden),
    }
}

/// The stored stand-in of an address: HMAC-SHA256 of its text under the secret.
pub fn ip_hash(ip: &IpAddress, secret: &str) -> (res: String)
    ensures
        res@ == crate::hashes::spec_hex(
            crate::hashes::hmac_sha256_of(
                vstd::utf8::encode_utf8(secret@),
                vstd::utf8::encode_utf8(ip_display(addr_parts(*ip).0, addr_parts(*ip).1)),
            ),
        ),
        res@.len() == 64,
{
    let text = ip_to_string(ip);
    hash_ip(text.as_str(), secret)
}

} // verus!
