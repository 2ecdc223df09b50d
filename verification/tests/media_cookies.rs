use aes_gcm::aead::{Aead, KeyInit};
use cbc::cipher::{block_padding::Pkcs7, BlockEncryptMut, KeyIvInit};
use teams_core::media::{
    check_ams_url, cookie_header, host_of, master_key_blob, mime_of, pbkdf2_sha1, plaintext_to_value,
    request_cookie_header, safe_storage_password, CookieCipher, MediaError,
};

fn hex(b: &[u8]) -> String {
    b.iter().map(|x| format!("{x:02x}")).collect()
}

fn text(v: Option<Vec<char>>) -> Option<String> {
    v.map(|c| c.into_iter().collect())
}

#[test]
fn pbkdf2_matches_rfc6070_vectors() {
    assert_eq!(hex(&pbkdf2_sha1(b"password", b"salt", 1, 20)), "0c60c80f961f0e71f3a9b524af6012062fe037a6");
    assert_eq!(hex(&pbkdf2_sha1(b"password", b"salt", 2, 20)), "ea6c014dc72d6f8ccd1ed92ace1d41f0d8de8957");
    assert_eq!(
        hex(&pbkdf2_sha1(b"passwordPASSWORDpassword", b"saltSALTsaltSALTsaltSALTsaltSALTsalt", 4096, 25)),
        "3d2eec4fe41c849b80c8d83662c0e44a8b291a964cf2f07038"
    );
    assert_eq!(pbkdf2_sha1(b"pw", b"s", 0, 16), pbkdf2_sha1(b"pw", b"s", 1, 16));
    assert!(pbkdf2_sha1(b"pw", b"s", 3, 0).is_empty());
}

#[test]
fn host_is_taken_from_the_authority() {
    assert_eq!(
        text(host_of("https://user@abc.asyncgw.teams.microsoft.com:443/v1/objects/x")),
        Some("abc.asyncgw.teams.microsoft.com".to_string())
    );
    assert_eq!(text(host_of("http://h/p")), Some("h".to_string()));
    assert_eq!(text(host_of("https://")), Some(String::new()));
    assert_eq!(text(host_of("ftp://h/p")), None);
}

#[test]
fn only_ams_urls_are_allowed() {
    match check_ams_url("https://eu.asyncgw.teams.microsoft.com/v1/objects/1/views/imgo") {
        Ok(h) => assert_eq!(h, "eu.asyncgw.teams.microsoft.com"),
        Err(_) => panic!("AMS URL refused"),
    }
    match check_ams_url("https://evil.example/x") {
        Err(MediaError::ForbiddenHost(h)) => assert_eq!(h, "evil.example"),
        _ => panic!("foreign host accepted"),
    }
    match check_ams_url("file:///etc/passwd") {
        Err(MediaError::ForbiddenHost(u)) => assert_eq!(u, "file:///etc/passwd"),
        _ => panic!("non-http URL accepted"),
    }
    assert!(check_ams_url("https://asyncgw.teams.microsoft.com/x").is_err());
    match check_ams_url("https://evil.example?.asyncgw.teams.microsoft.com/x") {
        Err(MediaError::ForbiddenHost(h)) => assert_eq!(h, "evil.example"),
        _ => panic!("query string taken for the host"),
    }
    match check_ams_url("https://evil.example#.asyncgw.teams.microsoft.com") {
        Err(MediaError::ForbiddenHost(h)) => assert_eq!(h, "evil.example"),
        _ => panic!("fragment taken for the host"),
    }
    assert_eq!(text(host_of("https://h?x=1/y")), Some("h".to_string()));
}

#[test]
fn linux_cookies_decrypt_with_fixed_and_keyring_keys() {
    let iv = [0x20u8; 16];
    let enc_with = |pw: &[u8], prefix: &[u8], plain: &[u8]| {
        let key = pbkdf2_sha1(pw, b"saltysalt", 1, 16);
        let ct = cbc::Encryptor::<aes::Aes128>::new_from_slices(&key, &iv)
            .unwrap()
            .encrypt_padded_vec_mut::<Pkcs7>(plain);
        let mut enc = prefix.to_vec();
        enc.extend(ct);
        enc
    };
    let v10 = enc_with(b"peanuts", b"v10", b"fixed-value");
    let v11 = enc_with(b"keyring-pw", b"v11", b"keyring-value");
    let without = CookieCipher::for_linux(None);
    assert_eq!(without.decrypt(&v10, None), Some("fixed-value".to_string()));
    assert_eq!(without.decrypt(&v11, None), None);
    assert!(!without.needs_dpapi(&v11));
    let with = CookieCipher::for_linux(Some(b"keyring-pw"));
    assert_eq!(with.decrypt(&v11, None), Some("keyring-value".to_string()));
    assert_eq!(with.decrypt(&v10, None), Some("fixed-value".to_string()));
    assert_eq!(with.decrypt(b"v12xxxx", None), None);
}

#[test]
fn cookie_header_joins_pairs() {
    let cookies = vec![("a".to_string(), "1".to_string()), ("b".to_string(), "2".to_string())];
    assert_eq!(cookie_header(&cookies), "a=1; b=2");
    assert_eq!(cookie_header(&vec![]), "");
    assert!(matches!(request_cookie_header(&vec![]), Err(MediaError::Decrypt)));
    assert_eq!(request_cookie_header(&cookies).ok().unwrap(), "a=1; b=2");
}

#[test]
fn mime_is_the_media_type_of_content_type() {
    assert_eq!(mime_of(Some("image/png; charset=binary")), "image/png");
    assert_eq!(mime_of(Some("  image/jpeg  ")), "image/jpeg");
    assert_eq!(mime_of(None), "application/octet-stream");
}

#[test]
fn plaintext_value_skips_the_domain_hash() {
    assert_eq!(plaintext_to_value(b"value"), Some("value".to_string()));
    let mut hashed = vec![0xFFu8; 32];
    hashed.extend_from_slice(b"secret");
    assert_eq!(plaintext_to_value(&hashed), Some("secret".to_string()));
    assert_eq!(plaintext_to_value(b""), None);
    assert_eq!(plaintext_to_value(&[0xFF; 33]), None);
}

#[test]
fn macos_cookies_decrypt_with_the_derived_key() {
    let pw = b"safe-storage-password";
    let key = pbkdf2_sha1(pw, b"saltysalt", 1003, 16);
    let iv = [0x20u8; 16];
    let ct = cbc::Encryptor::<aes::Aes128>::new_from_slices(&key, &iv)
        .unwrap()
        .encrypt_padded_vec_mut::<Pkcs7>(b"cookie-value");
    let mut enc = b"v10".to_vec();
    enc.extend(ct);
    let cipher = CookieCipher::from_password(pw);
    assert!(!cipher.needs_dpapi(&enc));
    assert_eq!(cipher.decrypt(&enc, None), Some("cookie-value".to_string()));
    assert_eq!(cipher.decrypt(&enc[1..], None), None);
    let rows = vec![("n".to_string(), enc.clone()), ("bad".to_string(), b"v10xyz".to_vec())];
    assert_eq!(
        cipher.decrypt_cookies(&rows, &vec![None, None]),
        vec![("n".to_string(), "cookie-value".to_string())]
    );
}

#[test]
fn windows_cookies_decrypt_with_the_master_key() {
    let key = [7u8; 32];
    let nonce = [9u8; 12];
    let gcm = aes_gcm::Aes256Gcm::new(aes_gcm::Key::<aes_gcm::Aes256Gcm>::from_slice(&key));
    let ct = gcm.encrypt(aes_gcm::Nonce::from_slice(&nonce), b"gcm-value".as_ref()).unwrap();
    let mut enc = b"v11".to_vec();
    enc.extend_from_slice(&nonce);
    enc.extend(ct);
    let cipher = CookieCipher::from_master_key(key.to_vec()).unwrap();
    assert_eq!(cipher.decrypt(&enc, None), Some("gcm-value".to_string()));
    let mut tampered = enc.clone();
    let last = tampered.len() - 1;
    tampered[last] ^= 1;
    assert_eq!(cipher.decrypt(&tampered, None), None);
    assert_eq!(cipher.decrypt(b"v10short", None), None);
    assert!(cipher.needs_dpapi(b"\x01\x00\x00\x00legacy"));
    assert_eq!(cipher.decrypt(b"\x01\x00\x00\x00legacy", Some(b"old-value")), Some("old-value".to_string()));
    assert!(CookieCipher::from_master_key(vec![1, 2, 3]).is_none());
}

#[test]
fn master_key_blob_needs_base64_and_the_dpapi_prefix() {
    assert_eq!(master_key_blob(Some("RFBBUEl4eXo=")).ok().unwrap(), b"xyz".to_vec());
    match master_key_blob(Some("eHl6")) {
        Err(MediaError::Key(m)) => assert_eq!(m, "DPAPI 접두어 없음"),
        _ => panic!("missing prefix accepted"),
    }
    assert!(matches!(master_key_blob(Some("!!")), Err(MediaError::Key(_))));
    match master_key_blob(None) {
        Err(MediaError::Key(m)) => assert_eq!(m, "os_crypt.encrypted_key 없음"),
        _ => panic!("missing key accepted"),
    }
}

#[test]
fn keychain_output_is_trimmed() {
    assert_eq!(safe_storage_password(true, b"pw\r\n\n".to_vec(), b"").ok().unwrap(), b"pw".to_vec());
    match safe_storage_password(false, vec![], b"  denied \n") {
        Err(MediaError::Key(m)) => assert_eq!(m, "denied"),
        _ => panic!("failure not reported"),
    }
}

#[test]
fn media_error_messages() {
    assert_eq!(MediaError::Http("404".to_string()).message(), "이미지 요청 실패: 404");
    assert_eq!(MediaError::NoCookiesDb.message(), "Teams 쿠키 DB 를 찾을 수 없음");
    assert_eq!(
        MediaError::Decrypt.message(),
        "asyncgw 인증 쿠키를 복호화하지 못함 (Teams 로그인 상태 확인)"
    );
}
