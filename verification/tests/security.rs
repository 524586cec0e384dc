use microchan::net::{IpAddress, IpNetwork};
use microchan::error::AppError;
use microchan::security::{client_ip, ip_hash, is_trusted_proxy, session_access};
use microchan::tripcode::hash_ip;

fn local() -> Vec<IpNetwork> {
    vec![
        IpNetwork { addr: IpAddress::V4([127, 0, 0, 1]), prefix_len: 32 },
        IpNetwork { addr: IpAddress::V4([10, 0, 0, 0]), prefix_len: 8 },
    ]
}

#[test]
fn network_membership() {
    let net = IpNetwork { addr: IpAddress::V4([192, 168, 1, 0]), prefix_len: 23 };
    assert!(net.contains(&IpAddress::V4([192, 168, 0, 255])));
    assert!(net.contains(&IpAddress::V4([192, 168, 1, 7])));
    assert!(!net.contains(&IpAddress::V4([192, 168, 2, 0])));
    assert!(!net.contains(&IpAddress::V6([0; 16])));
    let all = IpNetwork { addr: IpAddress::V6([0; 16]), prefix_len: 0 };
    assert!(all.contains(&IpAddress::V6([0xff; 16])));
}

#[test]
fn trusted_proxies() {
    assert!(is_trusted_proxy(&IpAddress::V4([10, 1, 2, 3]), &local()));
    assert!(!is_trusted_proxy(&IpAddress::V4([11, 1, 2, 3]), &local()));
}

#[test]
fn client_address() {
    let proxy = IpAddress::V4([127, 0, 0, 1]);
    let stranger = IpAddress::V4([8, 8, 8, 8]);
    // Behind a trusted proxy the first forwarded entry counts.
    assert_eq!(client_ip(Some(" 1.2.3.4 , 5.6.7.8"), proxy, &local()), IpAddress::V4([1, 2, 3, 4]));
    // A stranger cannot pose as someone else.
    assert_eq!(client_ip(Some("1.2.3.4"), stranger, &local()), stranger);
    // An unparsable entry falls back to the peer.
    assert_eq!(client_ip(Some("garbage"), proxy, &local()), proxy);
    assert_eq!(client_ip(None, proxy, &local()), proxy);
    let mut v6 = [0u8; 16];
    v6[15] = 1;
    assert_eq!(client_ip(Some("::1"), proxy, &local()), IpAddress::V6(v6));
}

#[test]
fn address_hash_uses_the_text_form() {
    let ip = IpAddress::V4([1, 2, 3, 4]);
    assert_eq!(ip_hash(&ip, "secret"), hash_ip("1.2.3.4", "secret"));
    assert_eq!(ip_hash(&ip, "secret").len(), 64);
}

#[test]
fn moderator_sessions() {
    assert!(session_access(Some(true)).is_ok());
    assert!(matches!(session_access(Some(false)), Err(AppError::Forbidden)));
    assert!(matches!(session_access(None), Err(AppError::Forbidden)));
}
