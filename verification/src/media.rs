//! Fetching images of the Async Media Service (AMS): the URL check, the
//! cookie header, the content type, and the decryption of the Chromium
//! `os_crypt` cookie values that authenticate the request.
//!
//! - macOS: the "Microsoft Teams Safe Storage" password, stretched with
//!   PBKDF2-HMAC-SHA1 (`saltysalt`, 1003 rounds) into an AES-128-CBC key.
//! - Windows: the DPAPI-protected master key of `Local State`, used for
//!   AES-256-GCM.

use vstd::prelude::*;
use crate::text::{
    chars_of, find_from, find_chars, lemma_find_from, slice_chars, string_from_chars, starts_with,
    starts_with_chars, ends_with, ends_with_chars, trim_ws, trim_chars, utf8_decode,
};
use crate::schema::chars_opt;
use crate::text::{utf8_lossy_string, utf8_lossy};
use aes_gcm::aead::{Aead, KeyInit};
use base64::Engine;
use cbc::cipher::{block_padding::Pkcs7, BlockDecryptMut, KeyIvInit};
use hmac::Mac;

verus! {

/// Why an image cannot be fetched.
#[derive(Debug)]
pub enum MediaError {
    /// The URL is not an AMS URL (`*.asyncgw.teams.microsoft.com`).
    ForbiddenHost(String),
    /// No cookie database was found.
    NoCookiesDb,
    /// Reading the cookie database failed.
    Cookies(String),
    /// The cookie decryption key could not be obtained.
    Key(String),
    /// No AMS cookie could be decrypted (not signed in).
    Decrypt,
    /// The image request failed.
    Http(String),
    /// Reading a file or the response failed.
    Io(String),
}

/// The text of a media error.
pub open spec fn media_error_text(e: MediaError) -> Seq<char> {
    match e {
        MediaError::ForbiddenHost(h) => "허용되지 않은 호스트 (asyncgw AMS URL 만 가능): "@ + h@,
        MediaError::NoCookiesDb => "Teams 쿠키 DB 를 찾을 수 없음"@,
        MediaError::Cookies(m) => "쿠키 DB 읽기 실패: "@ + m@,
        MediaError::Key(m) => "복호화 키 획득 실패: "@ + m@,
        MediaError::Decrypt => "asyncgw 인증 쿠키를 복호화하지 못함 (Teams 로그인 상태 확인)"@,
        MediaError::Http(m) => "이미지 요청 실패: "@ + m@,
        MediaError::Io(m) => m@,
    }
}

fn concat_text(a: &str, b: &String) -> (r: String)
    ensures
        r@ == a@ + b@,
{
    let mut v = chars_of(a);
    let mut w = chars_of(b.as_str());
    v.append(&mut w);
    string_from_chars(&v)
}

impl MediaError {
    /// The error's message.
    pub fn message(&self) -> (r: String)
        ensures
            r@ == media_error_text(*self),
    {
        match self {
            MediaError::ForbiddenHost(h) => concat_text("허용되지 않은 호스트 (asyncgw AMS URL 만 가능): ", h),
            MediaError::NoCookiesDb => "Teams 쿠키 DB 를 찾을 수 없음".to_string(),
            MediaError::Cookies(m) => concat_text("쿠키 DB 읽기 실패: ", m),
            MediaError::Key(m) => concat_text("복호화 키 획득 실패: ", m),
            MediaError::Decrypt => "asyncgw 인증 쿠키를 복호화하지 못함 (Teams 로그인 상태 확인)".to_string(),
            MediaError::Http(m) => concat_text("이미지 요청 실패: ", m),
            MediaError::Io(m) => m.clone(),
        }
    }
}

/// The position of the first `c` in `s`, else its length.
pub open spec fn first_pos(s: Seq<char>, c: char) -> int {
    match find_from(s, seq![c], 0) {
        Some(k) => k,
        None => s.len() as int,
    }
}

/// The position just after the last `c` in `s`, else 0.
pub open spec fn after_last(s: Seq<char>, c: char) -> int
    decreases s.len(),
{
    if s.len() == 0 {
        0
    } else if s.last() == c {
        s.len() as int
    } else {
        after_last(s.drop_last(), c)
    }
}

/// Where the authority of a URL (after its scheme) ends: at the first `/`,
/// `?` or `#`, else at its end.
pub open spec fn authority_end(r: Seq<char>) -> int {
    let a = first_pos(r, '/');
    let b = first_pos(r, '?');
    let c = first_pos(r, '#');
    let ab = if a <= b { a } else { b };
    if ab <= c { ab } else { c }
}

/// The host of an `http`/`https` URL: the authority (up to the first `/`,
/// `?` or `#`)
/// without user information (up to the last `@`) and port (from the first
/// `:`); `None` for another scheme.
pub open spec fn spec_host_of(url: Seq<char>) -> Option<Seq<char>> {
    let rest = if starts_with(url, "https://"@) {
        Some(url.skip("https://"@.len() as int))
    } else if starts_with(url, "http://"@) {
        Some(url.skip("http://"@.len() as int))
    } else {
        None
    };
    match rest {
        None => None,
        Some(r) => {
            let authority = r.take(authority_end(r));
            let hostport = authority.skip(after_last(authority, '@'));
            Some(hostport.take(first_pos(hostport, ':')))
        },
    }
}

fn first_pos_exec(s: &[char], c: char) -> (r: usize)
    ensures
        r == first_pos(s@, c),
        r <= s@.len(),
{
    let mut pat: Vec<char> = Vec::new();
    pat.push(c);
    assert(pat@ =~= seq![c]);
    proof { lemma_find_from(s@, seq![c], 0); }
    match find_chars(s, pat.as_slice(), 0) {
        Some(k) => k,
        None => s.len(),
    }
}

fn after_last_exec(s: &[char], c: char) -> (r: usize)
    ensures
        r == after_last(s@, c),
        r <= s@.len(),
{
    let mut end = s.len();
    assert(s@.take(end as int) =~= s@);
    while end > 0 && s[end - 1] != c
        invariant
            end <= s@.len(),
            after_last(s@, c) == after_last(s@.take(end as int), c),
        decreases end,
    {
        assert(s@.take(end as int).drop_last() =~= s@.take(end - 1));
        end -= 1;
    }
    end
}

/// The host of an `http`/`https` URL (see `spec_host_of`).
pub fn host_of(url: &str) -> (r: Option<Vec<char>>)
    ensures
        chars_opt(r) == spec_host_of(url@),
{
    let u = chars_of(url);
    let https = chars_of("https://");
    let http = chars_of("http://");
    let rest = if starts_with_chars(u.as_slice(), https.as_slice()) {
        slice_chars(u.as_slice(), https.len(), u.len())
    } else if starts_with_chars(u.as_slice(), http.as_slice()) {
        slice_chars(u.as_slice(), http.len(), u.len())
    } else {
        return None;
    };
    assert(rest@ == u@.skip(if starts_with(url@, "https://"@) { "https://"@.len() as int } else { "http://"@.len() as int }));
    let slash = first_pos_exec(rest, '/');
    let query = first_pos_exec(rest, '?');
    let frag = first_pos_exec(rest, '#');
    let ab = if slash <= query { slash } else { query };
    let end = if ab <= frag { ab } else { frag };
    let authority = slice_chars(rest, 0, end);
    assert(authority@ =~= rest@.take(end as int));
    let at = after_last_exec(authority, '@');
    let hostport = slice_chars(authority, at, authority.len());
    assert(hostport@ =~= authority@.skip(at as int));
    let colon = first_pos_exec(hostport, ':');
    let host = slice_chars(hostport, 0, colon);
    assert(host@ =~= hostport@.take(colon as int));
    Some(vstd::slice::slice_to_vec(host))
}

/// Whether a host belongs to AMS.
pub open spec fn is_ams_host(h: Seq<char>) -> bool {
    ends_with(h, ".asyncgw.teams.microsoft.com"@)
}

/// Checks that `url` is an AMS image URL and returns its host. Other URLs
/// are refused (`ForbiddenHost` with the URL when it has no host, else with
/// the host), so that no other server gets the cookies.
pub fn check_ams_url(url: &str) -> (r: Result<String, MediaError>)
    ensures
        match spec_host_of(url@) {
            None => r matches Err(MediaError::ForbiddenHost(u)) && u@ == url@,
            Some(h) => if is_ams_host(h) {
                r matches Ok(x) && x@ == h
            } else {
                r matches Err(MediaError::ForbiddenHost(x)) && x@ == h
            },
        },
{
    let host = match host_of(url) {
        Some(h) => h,
        None => return Err(MediaError::ForbiddenHost(url.to_string())),
    };
    let suffix = chars_of(".asyncgw.teams.microsoft.com");
    if !ends_with_chars(host.as_slice(), suffix.as_slice()) {
        return Err(MediaError::ForbiddenHost(string_from_chars(&host)));
    }
    Ok(string_from_chars(&host))
}

/// `name=value`.
pub open spec fn cookie_pair(c: (Seq<char>, Seq<char>)) -> Seq<char> {
    c.0 + seq!['='] + c.1
}

/// The `Cookie` header of a list of cookies: `name=value` pairs joined by
/// `; `.
pub open spec fn cookie_header_of(cs: Seq<(Seq<char>, Seq<char>)>) -> Seq<char>
    decreases cs.len(),
{
    if cs.len() == 0 {
        Seq::empty()
    } else if cs.len() == 1 {
        cookie_pair(cs[0])
    } else {
        cookie_header_of(cs.drop_last()) + "; "@ + cookie_pair(cs.last())
    }
}

/// The views of name/value pairs.
pub open spec fn pairs_view(v: Seq<(String, String)>) -> Seq<(Seq<char>, Seq<char>)> {
    v.map_values(|p: (String, String)| (p.0@, p.1@))
}

/// The `Cookie` header for a list of cookies.
pub fn cookie_header(cookies: &Vec<(String, String)>) -> (r: String)
    ensures
        r@ == cookie_header_of(pairs_view(cookies@)),
{
    let ghost cv = pairs_view(cookies@);
    let sep = chars_of("; ");
    let mut out: Vec<char> = Vec::new();
    let mut i: usize = 0;
    assert(cv.take(0) =~= Seq::<(Seq<char>, Seq<char>)>::empty());
    while i < cookies.len()
        invariant
            cv == pairs_view(cookies@),
            cv.len() == cookies@.len(),
            sep@ == "; "@,
            i <= cookies@.len(),
            out@ == cookie_header_of(cv.take(i as int)),
        decreases cookies@.len() - i,
    {
        assert(cv.take(i + 1).drop_last() =~= cv.take(i as int));
        assert(cv.take(i + 1).last() == cv[i as int]);
        assert(cv[i as int] == (cookies@[i as int].0@, cookies@[i as int].1@));
        let ghost before = out@;
        if i > 0 {
            let mut s = vstd::slice::slice_to_vec(sep.as_slice());
            out.append(&mut s);
        }
        let mut name = chars_of(cookies[i].0.as_str());
        out.append(&mut name);
        out.push('=');
        let mut value = chars_of(cookies[i].1.as_str());
        out.append(&mut value);
        proof {
            if i == 0 {
                assert(cv.take(1) =~= seq![cv[0]]);
                assert(out@ =~= cookie_pair(cv[0]));
            } else {
                assert(out@ =~= before + "; "@ + cookie_pair(cv[i as int]));
            }
        }
        i += 1;
    }
    assert(cv.take(cookies@.len() as int) =~= cv);
    string_from_chars(&out)
}

/// The media type of a response: its `Content-Type` up to the first `;`,
/// trimmed (`application/octet-stream` when there is none).
pub open spec fn spec_mime_of(content_type: Option<Seq<char>>) -> Seq<char> {
    let h = match content_type {
        Some(s) => s,
        None => "application/octet-stream"@,
    };
    trim_ws(h.take(first_pos(h, ';')))
}

/// The media type of a response from its `Content-Type` header.
pub fn mime_of(content_type: Option<&str>) -> (r: String)
    ensures
        r@ == spec_mime_of(match content_type { Some(s) => Some(s@), None => None }),
{
    let h = match content_type {
        Some(s) => chars_of(s),
        None => chars_of("application/octet-stream"),
    };
    let semi = first_pos_exec(h.as_slice(), ';');
    let head = slice_chars(h.as_slice(), 0, semi);
    assert(head@ =~= h@.take(semi as int));
    let t = trim_chars(head);
    string_from_chars(&vstd::slice::slice_to_vec(t))
}

/// The value of a decrypted cookie. Newer Chromium puts the SHA-256 of the
/// domain (32 bytes) before the value: the whole plaintext when it is
/// non-empty valid UTF-8, else the text after those 32 bytes when that is.
pub open spec fn spec_plaintext_value(pt: Seq<u8>) -> Option<Seq<char>> {
    if vstd::utf8::valid_utf8(pt) && vstd::utf8::decode_utf8(pt).len() > 0 {
        Some(vstd::utf8::decode_utf8(pt))
    } else if pt.len() > 32 && vstd::utf8::valid_utf8(pt.skip(32)) && vstd::utf8::decode_utf8(pt.skip(32)).len() > 0 {
        Some(vstd::utf8::decode_utf8(pt.skip(32)))
    } else {
        None
    }
}

/// The value of a decrypted cookie (see `spec_plaintext_value`).
pub fn plaintext_to_value(pt: &[u8]) -> (r: Option<String>)
    ensures
        match spec_plaintext_value(pt@) {
            Some(v) => r matches Some(s) && s@ == v,
            None => r is None,
        },
{
    match utf8_decode(pt) {
        Some(s) => {
            if s.as_str().unicode_len() > 0 {
                return Some(s);
            }
        },
        None => {},
    }
    if pt.len() > 32 {
        let rest = crate::idb::slice_range(pt, 32, pt.len());
        assert(rest@ =~= pt@.skip(32));
        match utf8_decode(rest) {
            Some(s) => {
                if s.as_str().unicode_len() > 0 {
                    return Some(s);
                }
            },
            None => {},
        }
    }
    None
}


/// Name for HMAC-SHA1 (RFC 2104) of `msg` under `key`: a 20-byte tag.
pub uninterp spec fn hmac_sha1_tag(key: Seq<u8>, msg: Seq<u8>) -> Seq<u8>;

/// HMAC-SHA1 of `msg` under `key`.
///
/// Trusted: keys the hmac crate's `Hmac<Sha1>` with `key` (its
/// `new_from_slice` accepts keys of any length), feeds `msg` and finalizes;
/// the contract names the tag and states its length, SHA-1's 20 bytes.
#[verifier::external_body]
fn hmac_sha1(key: &[u8], msg: &[u8]) -> (r: Vec<u8>)
    ensures
        r@ == hmac_sha1_tag(key@, msg@),
        r@.len() == 20,
{
    let mut mac = <hmac::Hmac<sha1::Sha1> as Mac>::new_from_slice(key).expect("HMAC takes keys of any length");
    mac.update(msg);
    mac.finalize().into_bytes().to_vec()
}

/// A block number as 4 big-endian bytes.
pub open spec fn be32(i: u32) -> Seq<u8> {
    seq![(i >> 24u32) as u8, (i >> 16u32) as u8, (i >> 8u32) as u8, i as u8]
}

/// `U_c` of PBKDF2 block `i`: `U_1 = HMAC(pw, salt || INT(i))`,
/// `U_c = HMAC(pw, U_{c-1})`.
pub open spec fn pbkdf2_u(pw: Seq<u8>, salt: Seq<u8>, i: u32, c: nat) -> Seq<u8>
    decreases c,
{
    if c <= 1 {
        hmac_sha1_tag(pw, salt + be32(i))
    } else {
        hmac_sha1_tag(pw, pbkdf2_u(pw, salt, i, (c - 1) as nat))
    }
}

/// Bytewise exclusive or.
pub open spec fn xor_bytes(a: Seq<u8>, b: Seq<u8>) -> Seq<u8> {
    Seq::new(a.len(), |k: int| a[k] ^ b[k])
}

/// PBKDF2 block `i` after `c` rounds: `U_1 ^ ... ^ U_c` (`U_1` alone for
/// fewer than two rounds).
pub open spec fn pbkdf2_f(pw: Seq<u8>, salt: Seq<u8>, i: u32, c: nat) -> Seq<u8>
    decreases c,
{
    if c <= 1 {
        pbkdf2_u(pw, salt, i, 1)
    } else {
        xor_bytes(pbkdf2_f(pw, salt, i, (c - 1) as nat), pbkdf2_u(pw, salt, i, c))
    }
}

/// Blocks `1..=n`, concatenated.
pub open spec fn pbkdf2_blocks(pw: Seq<u8>, salt: Seq<u8>, c: nat, n: nat) -> Seq<u8>
    decreases n,
{
    if n == 0 {
        Seq::empty()
    } else {
        pbkdf2_blocks(pw, salt, c, (n - 1) as nat) + pbkdf2_f(pw, salt, n as u32, c)
    }
}

/// PBKDF2-HMAC-SHA1 (RFC 8018) of `len` bytes.
pub open spec fn spec_pbkdf2(pw: Seq<u8>, salt: Seq<u8>, c: nat, len: nat) -> Seq<u8> {
    pbkdf2_blocks(pw, salt, c, (len + 19) as nat / 20).take(len as int)
}

fn pbkdf2_block(pw: &[u8], salt: &[u8], i: u32, iters: u32) -> (t: Vec<u8>)
    ensures
        t@ == pbkdf2_f(pw@, salt@, i, iters as nat),
        t@.len() == 20,
{
    let mut msg = vstd::slice::slice_to_vec(salt);
    msg.push((i >> 24u32) as u8);
    msg.push((i >> 16u32) as u8);
    msg.push((i >> 8u32) as u8);
    msg.push(i as u8);
    assert(msg@ =~= salt@ + be32(i));
    let mut u = hmac_sha1(pw, msg.as_slice());
    let mut t = vstd::slice::slice_to_vec(u.as_slice());
    let mut c: u32 = 1;
    while c < iters
        invariant
            1 <= c,
            c <= iters || c == 1,
            u@ == pbkdf2_u(pw@, salt@, i, c as nat),
            t@ == pbkdf2_f(pw@, salt@, i, c as nat),
            u@.len() == 20,
            t@.len() == 20,
        decreases iters - c,
    {
        u = hmac_sha1(pw, u.as_slice());
        c += 1;
        let ghost t0 = t@;
        let mut k: usize = 0;
        while k < 20
            invariant
                k <= 20,
                t@.len() == 20,
                u@.len() == 20,
                t0.len() == 20,
                forall|q: int| 0 <= q < k ==> #[trigger] t@[q] == t0[q] ^ u@[q],
                forall|q: int| k <= q < 20 ==> #[trigger] t@[q] == t0[q],
            decreases 20 - k,
        {
            let x = t[k] ^ u[k];
            t.set(k, x);
            k += 1;
        }
        assert(t@ =~= xor_bytes(t0, u@));
    }
    t
}

/// PBKDF2-HMAC-SHA1 of `dk_len` bytes.
pub fn pbkdf2_sha1(pw: &[u8], salt: &[u8], iters: u32, dk_len: usize) -> (r: Vec<u8>)
    requires
        dk_len <= 20 * 0xFFFF_FFFEusize,
    ensures
        r@ == spec_pbkdf2(pw@, salt@, iters as nat, dk_len as nat),
        r@.len() == dk_len,
{
    let nblocks: usize = dk_len / 20 + if dk_len % 20 == 0 { 0 } else { 1 };
    assert(nblocks == (dk_len + 19) as nat / 20);
    let mut all: Vec<u8> = Vec::new();
    let mut b: usize = 0;
    while b < nblocks
        invariant
            nblocks <= 0xFFFF_FFFE,
            nblocks == (dk_len + 19) as nat / 20,
            b <= nblocks,
            all@ == pbkdf2_blocks(pw@, salt@, iters as nat, b as nat),
            all@.len() == 20 * b,
        decreases nblocks - b,
    {
        let mut t = pbkdf2_block(pw, salt, (b + 1) as u32, iters);
        all.append(&mut t);
        b += 1;
    }
    let mut out: Vec<u8> = Vec::new();
    let mut k: usize = 0;
    while k < dk_len
        invariant
            dk_len <= all@.len(),
            k <= dk_len,
            out@ == all@.take(k as int),
        decreases dk_len - k,
    {
        out.push(all[k]);
        assert(out@ =~= all@.take(k + 1));
        k += 1;
    }
    out
}

/// Name for AES-128-CBC decryption with PKCS#7 unpadding: `None` when the
/// length is not a multiple of the block size or the padding is malformed.
pub uninterp spec fn aes128_cbc_decrypt(key: Seq<u8>, iv: Seq<u8>, ct: Seq<u8>) -> Option<Seq<u8>>;

/// AES-128-CBC decryption and PKCS#7 unpadding.
///
/// Trusted: calls the cbc crate's `Decryptor::<Aes128>` with
/// `decrypt_padded_vec_mut::<Pkcs7>`, which fails (here: `None`) on a length
/// that is not a multiple of 16 or on malformed padding. Key and IV have the
/// 16 bytes the constructor needs.
#[verifier::external_body]
fn cbc_decrypt(key: &[u8], iv: &[u8], ct: &[u8]) -> (r: Option<Vec<u8>>)
    requires
        key@.len() == 16,
        iv@.len() == 16,
    ensures
        bytes_opt(r) == aes128_cbc_decrypt(key@, iv@, ct@),
{
    match cbc::Decryptor::<aes::Aes128>::new_from_slices(key, iv) {
        Ok(d) => d.decrypt_padded_vec_mut::<Pkcs7>(ct).ok(),
        Err(_) => None,
    }
}

/// The views of optional byte vectors.
pub open spec fn bytes_opt(o: Option<Vec<u8>>) -> Option<Seq<u8>> {
    match o {
        Some(v) => Some(v@),
        None => None,
    }
}

/// Name for AES-256-GCM decryption of `ct` (ciphertext followed by its
/// 16-byte tag) with the 12-byte `nonce`: `None` when authentication fails.
pub uninterp spec fn aes256_gcm_decrypt(key: Seq<u8>, nonce: Seq<u8>, ct: Seq<u8>) -> Option<Seq<u8>>;

/// AES-256-GCM decryption.
///
/// Trusted: calls the aes-gcm crate's `Aes256Gcm::decrypt` (no associated
/// data), which fails (here: `None`) when the tag does not verify. Key and
/// nonce have the lengths that `from_slice` needs.
#[verifier::external_body]
fn gcm_decrypt(key: &[u8], nonce: &[u8], ct: &[u8]) -> (r: Option<Vec<u8>>)
    requires
        key@.len() == 32,
        nonce@.len() == 12,
    ensures
        bytes_opt(r) == aes256_gcm_decrypt(key@, nonce@, ct@),
{
    let cipher = aes_gcm::Aes256Gcm::new(aes_gcm::Key::<aes_gcm::Aes256Gcm>::from_slice(key));
    cipher.decrypt(aes_gcm::Nonce::from_slice(nonce), ct).ok()
}

/// Name for the standard base64 decoding (with padding) of a string:
/// `None` when it is not valid base64.
pub uninterp spec fn base64_decode(s: Seq<char>) -> Option<Seq<u8>>;

/// Standard base64 decoding.
///
/// Trusted: calls the base64 crate's `general_purpose::STANDARD.decode`;
/// on failure the error's text is returned.
#[verifier::external_body]
fn b64_decode(s: &str) -> (r: Result<Vec<u8>, String>)
    ensures
        match r {
            Ok(b) => base64_decode(s@) == Some(b@),
            Err(_) => base64_decode(s@) is None,
        },
{
    match base64::engine::general_purpose::STANDARD.decode(s) {
        Ok(b) => Ok(b),
        Err(e) => Err(e.to_string()),
    }
}

/// Whether bytes begin with the given prefix.
pub open spec fn has_prefix(b: Seq<u8>, p: Seq<u8>) -> bool {
    p.len() <= b.len() && b.take(p.len() as int) == p
}

fn has_prefix_exec(b: &[u8], p: &[u8]) -> (r: bool)
    ensures
        r == has_prefix(b@, p@),
{
    if p.len() > b.len() {
        return false;
    }
    let mut i: usize = 0;
    while i < p.len()
        invariant
            p@.len() <= b@.len(),
            i <= p@.len(),
            forall|q: int| 0 <= q < i ==> b@[q] == p@[q],
        decreases p@.len() - i,
    {
        if b[i] != p[i] {
            assert(b@.take(p@.len() as int)[i as int] != p@[i as int]);
            return false;
        }
        i += 1;
    }
    assert(b@.take(p@.len() as int) =~= p@);
    true
}

/// `DPAPI` in bytes.
pub open spec fn dpapi_tag() -> Seq<u8> {
    seq![0x44u8, 0x50u8, 0x41u8, 0x50u8, 0x49u8]
}

/// The DPAPI-protected master key held (base64-encoded, after a `DPAPI`
/// prefix) in `os_crypt.encrypted_key` of `Local State`; `encrypted_key` is
/// that field when present.
pub fn master_key_blob(encrypted_key: Option<&str>) -> (r: Result<Vec<u8>, MediaError>)
    ensures
        match encrypted_key {
            None => r matches Err(MediaError::Key(m)) && m@ == "os_crypt.encrypted_key 없음"@,
            Some(s) => match base64_decode(s@) {
                None => r matches Err(MediaError::Key(_)),
                Some(raw) => if has_prefix(raw, dpapi_tag()) {
                    r matches Ok(k) && k@ == raw.skip(5)
                } else {
                    r matches Err(MediaError::Key(m)) && m@ == "DPAPI 접두어 없음"@
                },
            },
        },
{
    let s = match encrypted_key {
        Some(s) => s,
        None => return Err(MediaError::Key("os_crypt.encrypted_key 없음".to_string())),
    };
    let raw = match b64_decode(s) {
        Ok(b) => b,
        Err(e) => return Err(MediaError::Key(e)),
    };
    let tag: [u8; 5] = [0x44, 0x50, 0x41, 0x50, 0x49];
    assert(tag@ =~= dpapi_tag());
    if !has_prefix_exec(raw.as_slice(), tag.as_slice()) {
        return Err(MediaError::Key("DPAPI 접두어 없음".to_string()));
    }
    let rest = crate::idb::slice_range(raw.as_slice(), 5, raw.len());
    assert(rest@ =~= raw@.skip(5));
    Ok(vstd::slice::slice_to_vec(rest))
}

/// `b` without its trailing line breaks (`\n`, `\r`).
pub open spec fn strip_line_ends(b: Seq<u8>) -> Seq<u8>
    decreases b.len(),
{
    if b.len() > 0 && (b.last() == 10 || b.last() == 13) {
        strip_line_ends(b.drop_last())
    } else {
        b
    }
}

/// The Safe Storage password from the output of the keychain query
/// (`security find-generic-password -w`): its standard output without
/// trailing line breaks, or, when the command failed, a `Key` error with its
/// trimmed error output.
pub fn safe_storage_password(success: bool, stdout: Vec<u8>, stderr: &[u8]) -> (r: Result<Vec<u8>, MediaError>)
    ensures
        success ==> (r matches Ok(pw) && pw@ == strip_line_ends(stdout@)),
        !success ==> (r matches Err(MediaError::Key(m)) && m@ == trim_ws(utf8_lossy(stderr@))),
{
    if !success {
        let e = utf8_lossy_string(stderr);
        let ec = chars_of(e.as_str());
        let t = trim_chars(ec.as_slice());
        return Err(MediaError::Key(string_from_chars(&vstd::slice::slice_to_vec(t))));
    }
    let mut pw = stdout;
    while pw.len() > 0 && (pw[pw.len() - 1] == 10 || pw[pw.len() - 1] == 13)
        invariant
            strip_line_ends(pw@) == strip_line_ends(stdout@),
        decreases pw@.len(),
    {
        let ghost before = pw@;
        pw.pop();
        assert(pw@ =~= before.drop_last());
    }
    Ok(pw)
}

/// The salt of the macOS cookie key.
pub open spec fn saltysalt() -> Seq<u8> {
    seq![0x73u8, 0x61u8, 0x6cu8, 0x74u8, 0x79u8, 0x73u8, 0x61u8, 0x6cu8, 0x74u8]
}

/// `v10` in bytes.
pub open spec fn v10() -> Seq<u8> {
    seq![0x76u8, 0x31u8, 0x30u8]
}

/// `v11` in bytes.
pub open spec fn v11() -> Seq<u8> {
    seq![0x76u8, 0x31u8, 0x31u8]
}

/// The fixed password of Linux `v10` cookies: `peanuts`.
pub open spec fn peanuts() -> Seq<u8> {
    seq![0x70u8, 0x65u8, 0x61u8, 0x6eu8, 0x75u8, 0x74u8, 0x73u8]
}

/// The initialization vector of macOS and Linux cookies: 16 spaces.
pub open spec fn space_iv() -> Seq<u8> {
    Seq::new(16, |i: int| 0x20u8)
}

/// How cookie values are encrypted on this machine.
pub enum CookieCipher {
    /// macOS: AES-128-CBC under a key derived from the Safe Storage password.
    Cbc(Vec<u8>),
    /// Windows: AES-256-GCM under the master key of `Local State`.
    Gcm(Vec<u8>),
    /// Linux: AES-128-CBC; `v10` values under a key derived from the fixed
    /// password `peanuts`, `v11` values under one derived from the keyring
    /// password, when there is one.
    Linux(Vec<u8>, Option<Vec<u8>>),
}

/// Plain view of a cookie cipher.
pub enum CipherView {
    Cbc(Seq<u8>),
    Gcm(Seq<u8>),
    Linux(Seq<u8>, Option<Seq<u8>>),
}

impl View for CookieCipher {
    type V = CipherView;

    open spec fn view(&self) -> CipherView {
        match self {
            CookieCipher::Cbc(k) => CipherView::Cbc(k@),
            CookieCipher::Gcm(k) => CipherView::Gcm(k@),
            CookieCipher::Linux(k10, k11) => CipherView::Linux(k10@, bytes_opt(*k11)),
        }
    }
}

/// The key has the length of its cipher.
pub open spec fn cipher_wf(c: CipherView) -> bool {
    match c {
        CipherView::Cbc(k) => k.len() == 16,
        CipherView::Gcm(k) => k.len() == 32,
        CipherView::Linux(k10, k11) => k10.len() == 16 && (k11 matches Some(k) ==> k.len() == 16),
    }
}

/// Whether the plaintext of an encrypted cookie value must come from DPAPI
/// (a Windows value that is not in the `v10`/`v11` AES-GCM format).
pub open spec fn spec_needs_dpapi(c: CipherView, enc: Seq<u8>) -> bool {
    c is Gcm && !has_prefix(enc, v10()) && !has_prefix(enc, v11())
}

/// The value of an encrypted cookie. `legacy` is the DPAPI plaintext of
/// `enc` when `spec_needs_dpapi` (ignored otherwise).
/// - macOS: `v10` + AES-128-CBC (key from the password, IV of spaces).
/// - Windows: `v10`/`v11` + 12-byte nonce + ciphertext and tag (at least
///   16 bytes), AES-256-GCM; other values are DPAPI-protected.
/// - Linux: `v10` or `v11` + AES-128-CBC (IV of spaces) under the key of
///   that version; no `v11` key, no value.
pub open spec fn spec_decrypt(c: CipherView, enc: Seq<u8>, legacy: Option<Seq<u8>>) -> Option<Seq<char>> {
    let pt = match c {
        CipherView::Cbc(key) => if has_prefix(enc, v10()) {
            aes128_cbc_decrypt(key, space_iv(), enc.skip(3))
        } else {
            None
        },
        CipherView::Linux(k10, k11) => if has_prefix(enc, v10()) {
            aes128_cbc_decrypt(k10, space_iv(), enc.skip(3))
        } else if has_prefix(enc, v11()) {
            match k11 {
                Some(k) => aes128_cbc_decrypt(k, space_iv(), enc.skip(3)),
                None => None,
            }
        } else {
            None
        },
        CipherView::Gcm(key) => if has_prefix(enc, v10()) || has_prefix(enc, v11()) {
            if enc.len() < 3 + 12 + 16 {
                None
            } else {
                aes256_gcm_decrypt(key, enc.subrange(3, 15), enc.skip(15))
            }
        } else {
            legacy
        },
    };
    match pt {
        Some(p) => spec_plaintext_value(p),
        None => None,
    }
}

impl CookieCipher {
    /// The macOS cipher: the AES-128 key is PBKDF2-HMAC-SHA1 of the Safe
    /// Storage password with salt `saltysalt`, 1003 rounds, 16 bytes.
    pub fn from_password(pw: &[u8]) -> (c: CookieCipher)
        ensures
            c@ == CipherView::Cbc(spec_pbkdf2(pw@, saltysalt(), 1003, 16)),
            cipher_wf(c@),
    {
        let salt: [u8; 9] = [0x73, 0x61, 0x6c, 0x74, 0x79, 0x73, 0x61, 0x6c, 0x74];
        assert(salt@ =~= saltysalt());
        let key = pbkdf2_sha1(pw, salt.as_slice(), 1003, 16);
        CookieCipher::Cbc(key)
    }

    /// The Linux cipher: AES-128 keys are PBKDF2-HMAC-SHA1 with salt
    /// `saltysalt`, one round, 16 bytes, of `peanuts` (for `v10` values) and
    /// of the keyring password, when there is one (for `v11` values).
    pub fn for_linux(keyring_password: Option<&[u8]>) -> (c: CookieCipher)
        ensures
            c@ == CipherView::Linux(
                spec_pbkdf2(peanuts(), saltysalt(), 1, 16),
                match keyring_password {
                    Some(p) => Some(spec_pbkdf2(p@, saltysalt(), 1, 16)),
                    None => None,
                },
            ),
            cipher_wf(c@),
    {
        let salt: [u8; 9] = [0x73, 0x61, 0x6c, 0x74, 0x79, 0x73, 0x61, 0x6c, 0x74];
        assert(salt@ =~= saltysalt());
        let fixed: [u8; 7] = [0x70, 0x65, 0x61, 0x6e, 0x75, 0x74, 0x73];
        assert(fixed@ =~= peanuts());
        let k10 = pbkdf2_sha1(fixed.as_slice(), salt.as_slice(), 1, 16);
        let k11 = match keyring_password {
            Some(p) => Some(pbkdf2_sha1(p, salt.as_slice(), 1, 16)),
            None => None,
        };
        CookieCipher::Linux(k10, k11)
    }

    /// The Windows cipher over a 32-byte master key (`None` for another
    /// length, which AES-256 cannot use).
    pub fn from_master_key(master_key: Vec<u8>) -> (c: Option<CookieCipher>)
        ensures
            master_key@.len() == 32 ==> (c matches Some(x) && x@ == CipherView::Gcm(master_key@)),
            master_key@.len() != 32 ==> c is None,
    {
        if master_key.len() == 32 {
            Some(CookieCipher::Gcm(master_key))
        } else {
            None
        }
    }

    /// Whether the value must first be unprotected with DPAPI.
    pub fn needs_dpapi(&self, enc: &[u8]) -> (r: bool)
        ensures
            r == spec_needs_dpapi(self@, enc@),
    {
        let a: [u8; 3] = [0x76, 0x31, 0x30];
        let b: [u8; 3] = [0x76, 0x31, 0x31];
        assert(a@ =~= v10());
        assert(b@ =~= v11());
        match self {
            CookieCipher::Cbc(_) => false,
            CookieCipher::Linux(_, _) => false,
            CookieCipher::Gcm(_) => !has_prefix_exec(enc, a.as_slice()) && !has_prefix_exec(enc, b.as_slice()),
        }
    }

    /// The value of an encrypted cookie (see `spec_decrypt`).
    pub fn decrypt(&self, enc: &[u8], legacy: Option<&[u8]>) -> (r: Option<String>)
        requires
            cipher_wf(self@),
        ensures
            match spec_decrypt(self@, enc@, match legacy { Some(l) => Some(l@), None => None }) {
                Some(v) => r matches Some(s) && s@ == v,
                None => r is None,
            },
    {
        let a: [u8; 3] = [0x76, 0x31, 0x30];
        let b: [u8; 3] = [0x76, 0x31, 0x31];
        assert(a@ =~= v10());
        assert(b@ =~= v11());
        let pt: Option<Vec<u8>> = match self {
            CookieCipher::Cbc(key) => {
                if has_prefix_exec(enc, a.as_slice()) {
                    let iv: [u8; 16] = [0x20; 16];
                    assert(iv@ =~= space_iv());
                    let ct = crate::idb::slice_range(enc, 3, enc.len());
                    assert(ct@ =~= enc@.skip(3));
                    cbc_decrypt(key.as_slice(), iv.as_slice(), ct)
                } else {
                    None
                }
            },
            CookieCipher::Linux(k10, k11) => {
                let iv: [u8; 16] = [0x20; 16];
                assert(iv@ =~= space_iv());
                if has_prefix_exec(enc, a.as_slice()) {
                    let ct = crate::idb::slice_range(enc, 3, enc.len());
                    assert(ct@ =~= enc@.skip(3));
                    cbc_decrypt(k10.as_slice(), iv.as_slice(), ct)
                } else if has_prefix_exec(enc, b.as_slice()) {
                    match k11 {
                        Some(k) => {
                            let ct = crate::idb::slice_range(enc, 3, enc.len());
                            assert(ct@ =~= enc@.skip(3));
                            cbc_decrypt(k.as_slice(), iv.as_slice(), ct)
                        },
                        None => None,
                    }
                } else {
                    None
                }
            },
            CookieCipher::Gcm(key) => {
                if has_prefix_exec(enc, a.as_slice()) || has_prefix_exec(enc, b.as_slice()) {
                    if enc.len() < 3 + 12 + 16 {
                        None
                    } else {
                        let nonce = crate::idb::slice_range(enc, 3, 15);
                        let ct = crate::idb::slice_range(enc, 15, enc.len());
                        assert(ct@ =~= enc@.skip(15));
                        gcm_decrypt(key.as_slice(), nonce, ct)
                    }
                } else {
                    match legacy {
                        Some(l) => Some(vstd::slice::slice_to_vec(l)),
                        None => None,
                    }
                }
            },
        };
        match pt {
            Some(p) => plaintext_to_value(p.as_slice()),
            None => None,
        }
    }
}


/// Cookie rows `(name, encrypted value)` as plain values.
pub open spec fn rows_view(v: Seq<(String, Vec<u8>)>) -> Seq<(Seq<char>, Seq<u8>)> {
    v.map_values(|r: (String, Vec<u8>)| (r.0@, r.1@))
}

/// DPAPI plaintexts as plain values.
pub open spec fn legacy_view(v: Seq<Option<Vec<u8>>>) -> Seq<Option<Seq<u8>>> {
    v.map_values(|o: Option<Vec<u8>>| bytes_opt(o))
}

/// The cookies of `rows` whose values decrypt, as `(name, value)`, in order;
/// `legacy[i]` is the DPAPI plaintext of row `i` where one is needed.
pub open spec fn decrypted_cookies(c: CipherView, rows: Seq<(Seq<char>, Seq<u8>)>, legacy: Seq<Option<Seq<u8>>>) -> Seq<(Seq<char>, Seq<char>)>
    decreases rows.len(),
{
    if rows.len() == 0 {
        Seq::empty()
    } else {
        let prev = decrypted_cookies(c, rows.drop_last(), legacy);
        match spec_decrypt(c, rows.last().1, legacy[rows.len() - 1]) {
            Some(v) => prev.push((rows.last().0, v)),
            None => prev,
        }
    }
}

impl CookieCipher {
    /// Decrypts the cookie rows, keeping those whose values decrypt.
    pub fn decrypt_cookies(&self, rows: &Vec<(String, Vec<u8>)>, legacy: &Vec<Option<Vec<u8>>>) -> (r: Vec<(String, String)>)
        requires
            cipher_wf(self@),
            legacy@.len() == rows@.len(),
        ensures
            pairs_view(r@) == decrypted_cookies(self@, rows_view(rows@), legacy_view(legacy@)),
    {
        let ghost rv = rows_view(rows@);
        let ghost lv = legacy_view(legacy@);
        let mut out: Vec<(String, String)> = Vec::new();
        let mut i: usize = 0;
        assert(rv.take(0) =~= Seq::<(Seq<char>, Seq<u8>)>::empty());
        assert(pairs_view(out@) =~= Seq::<(Seq<char>, Seq<char>)>::empty());
        while i < rows.len()
            invariant
                cipher_wf(self@),
                rv == rows_view(rows@),
                lv == legacy_view(legacy@),
                legacy@.len() == rows@.len(),
                i <= rows@.len(),
                pairs_view(out@) == decrypted_cookies(self@, rv.take(i as int), lv),
            decreases rows@.len() - i,
        {
            assert(rv.take(i + 1).drop_last() =~= rv.take(i as int));
            assert(rv.take(i + 1).last() == rv[i as int]);
            assert(rv[i as int] == (rows@[i as int].0@, rows@[i as int].1@));
            assert(lv[i as int] == bytes_opt(legacy@[i as int]));
            let l: Option<&[u8]> = match &legacy[i] {
                Some(v) => Some(v.as_slice()),
                None => None,
            };
            match self.decrypt(rows[i].1.as_slice(), l) {
                Some(v) => {
                    let ghost before = pairs_view(out@);
                    let name = rows[i].0.clone();
                    out.push((name, v));
                    assert(pairs_view(out@) =~= before.push((rows@[i as int].0@, v@)));
                },
                None => {},
            }
            i += 1;
        }
        assert(rv.take(rows@.len() as int) =~= rv);
        out
    }
}

/// The `Cookie` header of an image request; `Decrypt` when no cookie could
/// be decrypted.
pub fn request_cookie_header(cookies: &Vec<(String, String)>) -> (r: Result<String, MediaError>)
    ensures
        cookies@.len() == 0 ==> r matches Err(MediaError::Decrypt),
        cookies@.len() > 0 ==> (r matches Ok(h) && h@ == cookie_header_of(pairs_view(cookies@))),
{
    if cookies.len() == 0 {
        return Err(MediaError::Decrypt);
    }
    Ok(cookie_header(cookies))
}

} // verus!
