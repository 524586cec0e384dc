use microchan::des::{decode_hash_bytes, des_crypt, des_crypt_with_salt};
use microchan::tripcode::{
    classic_tripcode, decode_count, file_hash, hash_ip, secure_tripcode, split_name, to_shift_jis,
};

fn fold_for_test(text: &[u8]) -> [u8; 8] {
    let mut keybuf = [0u8; 8];
    let mut plain = [0u8; 8];
    let mut pkbuf = [0u8; 8];
    let mut phrase = text;
    loop {
        for i in 0..8 {
            let ch = phrase.first().copied().unwrap_or(0);
            plain[i] = pkbuf[i] ^ (ch << 1);
            keybuf[i] = (pkbuf[i] >> 1) ^ ch;
            if !phrase.is_empty() {
                phrase = &phrase[1..];
            }
        }
        if phrase.is_empty() {
            break;
        }
        let encoded = des_crypt_with_salt(&keybuf, &[], 1, &plain);
        pkbuf = decode_hash_bytes(&encoded);
    }
    keybuf
}

#[test]
fn debug_crypt_vectors() {
    assert_eq!(des_crypt(b"asd\0\0\0\0\0", b"..", 25), "..yXBEO806ZEA");
    assert_eq!(des_crypt(b"a\0\0\0\0\0\0\0", b"H.", 25), "H.6ZnBI2EKkq.");
    assert_eq!(des_crypt(b"asd\0\0\0\0\0", b"sd", 25), "sdOTAPy3blMsc");
}

#[test]
fn split_name_basic() {
    let (name, trips) = split_name("Anonymous");
    assert_eq!(name, "Anonymous");
    assert!(trips.classic.is_none() && trips.secure.is_none());

    let (name, trips) = split_name("Foo#bar");
    assert_eq!(name, "Foo");
    assert_eq!(trips.classic.as_deref(), Some("bar"));

    let (name, trips) = split_name("Foo##secret");
    assert_eq!(name, "Foo");
    assert_eq!(trips.secure.as_deref(), Some("secret"));

    let (name, trips) = split_name("Foo!bar");
    assert_eq!(name, "Foo!bar");
    assert!(trips.classic.is_none() && trips.secure.is_none());
}

#[test]
fn classic_known_vectors() {
    assert_eq!(classic_tripcode("asd").as_deref(), Some("TAPy3blMsc"));
    assert_eq!(classic_tripcode("adasd").as_deref(), Some("IOuORdzMKw"));
    assert_eq!(classic_tripcode("!").as_deref(), Some("KNs1o0VDv6"));
    assert_eq!(classic_tripcode("#").as_deref(), Some("u2YjtUz8MU"));
    assert_eq!(classic_tripcode("%").as_deref(), Some("1t98deumW."));
    assert_eq!(classic_tripcode("rasmuslerdorf"), Some("P8/.5y85.M".into()));
}

#[test]
fn secure_tripcode_long_password() {
    let text = to_shift_jis("rasmuslerdorf");
    let keybuf = fold_for_test(&text);
    let encoded = des_crypt_with_salt(&keybuf, &[b'r', b'a', b's', b'm'], 725, &[0u8; 8]);
    assert_eq!(encoded, "BYk8r9AiWNc");
}

#[test]
fn extended_short_password() {
    let encoded = des_crypt_with_salt(b"rasmusle", &[b'r', b'a', b's', b'm'], 725, &[0u8; 8]);
    assert_eq!(encoded, "qYJvZGUjATQ");
    let vichan = des_crypt_with_salt(b"rasmusle", &[b'r', b'a', b's', b'm'], 53248, &[0u8; 8]);
    println!("vichan-count short: {vichan}");
    assert_eq!(vichan.len(), 11);
}

#[test]
fn extended_one_fold_block() {
    let text = to_shift_jis("rasmusleX");
    let keybuf = fold_for_test(&text);
    let encoded = des_crypt_with_salt(&keybuf, &[b'r', b'a', b's', b'm'], 725, &[0u8; 8]);
    assert_eq!(encoded, "Rgre5XRegKI");
}

#[test]
fn secure_tripcode_deterministic() {
    let a = secure_tripcode("password", "sitesalt");
    let b = secure_tripcode("password", "sitesalt");
    let c = secure_tripcode("password", "other");
    assert_eq!(a, b);
    assert!(a.is_some());
    assert_ne!(a, c);
    assert_eq!(a.unwrap().len(), 10);
}

#[test]
fn tripcodes_differ_between_classic_and_secure() {
    let classic = classic_tripcode("password").unwrap();
    let secure = secure_tripcode("password", "sitesalt").unwrap();
    assert_ne!(classic, secure);
}

#[test]
fn ip_hash_is_stable_and_hex() {
    let h1 = hash_ip("1.2.3.4", "secret");
    let h2 = hash_ip("1.2.3.4", "secret");
    let h3 = hash_ip("1.2.3.4", "other");
    assert_eq!(h1, h2);
    assert_ne!(h1, h3);
    assert_eq!(h1.len(), 64);
    assert!(h1.chars().all(|c| c.is_ascii_hexdigit()));
}

#[test]
fn file_hash_of_empty_input() {
    assert_eq!(
        file_hash(b""),
        "e3b0c44298fc1c149afbf4c8996fb92427ae41e4649b934ca495991b7852b855"
    );
}

#[test]
fn hash_ip_known_value() {
    // RFC 4231, test case 2: key "Jefe", data "what do ya want for nothing?".
    assert_eq!(
        hash_ip("what do ya want for nothing?", "Jefe"),
        "5bdcc146bf60754e6a042426089575c75a003f089d2739839dec58b964ec3843"
    );
}

#[test]
fn empty_seed_has_no_tripcode() {
    assert_eq!(classic_tripcode(""), None);
    assert_eq!(secure_tripcode("", "salt"), None);
}

#[test]
fn render_prefixes() {
    let (_, trips) = split_name("x#asd");
    assert_eq!(trips.render("s").as_deref(), Some("!TAPy3blMsc"));
    let (_, trips) = split_name("x##password");
    let secure = secure_tripcode("password", "salt").unwrap();
    assert_eq!(trips.render("salt"), Some(format!("!!{secure}")));
    let (_, trips) = split_name("x");
    assert_eq!(trips.render("salt"), None);
}

#[test]
fn shift_jis_replaces_unmappable() {
    // ASCII is unchanged; kana have two-byte Shift_JIS forms.
    assert_eq!(to_shift_jis("abc"), b"abc".to_vec());
    assert_eq!(to_shift_jis("ア"), vec![0x83, 0x41]);
    // A character Shift_JIS cannot represent becomes '?'.
    assert_eq!(to_shift_jis("😀"), b"?".to_vec());
    assert_eq!(to_shift_jis("あ😀"), vec![0x82, 0xA0, b'?']);
    assert_eq!(to_shift_jis("ア😀a😀"), vec![0x83, 0x41, b'?', b'a', b'?']);
    assert_eq!(to_shift_jis(""), Vec::<u8>::new());
    // Tripcodes of such seeds are those of the '?' form.
    assert_eq!(classic_tripcode("ab😀cd"), classic_tripcode("ab?cd"));
    assert_eq!(secure_tripcode("😀x", "salt"), secure_tripcode("?x", "salt"));
}

#[test]
fn shown_name_never_holds_a_hash() {
    for raw in ["a#b#c", "  x ##y#z", "#", "##", "plain", " # ", "a b#"] {
        let (name, trips) = split_name(raw);
        assert!(!name.contains('#'), "{raw:?} -> {name:?}");
        assert_eq!(trips.classic.is_some() || trips.secure.is_some(), raw.contains('#'));
    }
    let (name, trips) = split_name("a#b#c");
    assert_eq!(name, "a");
    assert_eq!(trips.classic.as_deref(), Some("b#c"));
}

#[test]
fn crypt_laws_on_examples() {
    let key = *b"\xe1bc\xffdefg";
    let low = key.map(|b| b & 0x7f);
    let pt = *b"12345678";
    // Bit 7 of the key bytes takes no part.
    assert_eq!(des_crypt_with_salt(&key, b"ab", 25, &pt), des_crypt_with_salt(&low, b"ab", 25, &pt));
    // Letters worth zero may be '.' or left off; letters past four change nothing.
    assert_eq!(des_crypt_with_salt(&key, b"..", 5, &pt), des_crypt_with_salt(&key, b"", 5, &pt));
    assert_eq!(des_crypt_with_salt(&key, b"..", 5, &pt), des_crypt_with_salt(&key, b"....", 5, &pt));
    assert_eq!(des_crypt_with_salt(&key, b"a!", 5, &pt), des_crypt_with_salt(&key, b"a", 5, &pt));
    assert_eq!(des_crypt_with_salt(&key, b"ab..!.", 5, &pt), des_crypt_with_salt(&key, b"ab", 5, &pt));
    // No encryption: the letters decode to the plaintext.
    assert_eq!(decode_hash_bytes(&des_crypt_with_salt(&key, b"zz", 0, &pt)), pt);
    // Only the first eight key bytes count.
    assert_eq!(classic_tripcode("rasmuslerdorf"), classic_tripcode("rasmusle"));
}

#[test]
fn iteration_count_letters() {
    // Four letters, least significant first, six bits each: "..A." is 12 << 12.
    assert_eq!(decode_count(b"_..A.rasm"), 49152);
    assert_eq!(decode_count(b"_J9..rasm"), 725);
}

#[test]
fn crypt_writes_the_salt() {
    assert!(des_crypt(b"asd\0\0\0\0\0", b"sd", 25).starts_with("sd"));
    // A salt that is no UTF-8 is written lossily.
    assert!(des_crypt(b"asd\0\0\0\0\0", &[0xff, b'a'], 25).starts_with("\u{FFFD}a"));
}
