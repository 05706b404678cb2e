//! The verification keys of the token issuer, and whether authorization is
//! required.
use vstd::prelude::*;
use crate::error::AuthError;
use crate::outside::{base64url_decode, decode_base64url, public_key_from_slice};
use crate::seqs::distinct_keys;
use crate::text::{
    all_identifier_bytes, chars_of, find_char, is_identifier_byte, lemma_position_of_is,
    lemma_position_of_none, split_all, split_once, str_eq, trim, trim_bounds,
};
use crate::outside::sodium_init;
use vstd::string::StrSliceExecFns;

verus! {

/// A configured key, as the contracts see it.
pub struct KeyView {
    pub kid: Seq<char>,
    pub key: Seq<u8>,
}

/// An Ed25519 public key of the issuer and the id that tokens name it by.
pub struct KeyEntry {
    kid: String,
    key: [u8; 32],
}

impl View for KeyEntry {
    type V = KeyView;

    closed spec fn view(&self) -> KeyView {
        KeyView { kid: self.kid@, key: self.key@ }
    }
}

/// The issuer's keys by id; an id is held once.
pub struct KeyRing {
    entries: Vec<KeyEntry>,
}

impl View for KeyRing {
    type V = Seq<KeyView>;

    closed spec fn view(&self) -> Seq<KeyView> {
        self.entries@.map_values(|e: KeyEntry| e@)
    }
}

pub open spec fn key_id_of() -> spec_fn(KeyView) -> Seq<char> {
    |k: KeyView| k.kid
}

/// Where the key with this id stands, if there is one.
pub open spec fn kid_index(keys: Seq<KeyView>, kid: Seq<char>) -> Option<int> {
    if exists|i: int| 0 <= i < keys.len() && (#[trigger] keys[i]).kid == kid {
        Some(choose|i: int| 0 <= i < keys.len() && (#[trigger] keys[i]).kid == kid)
    } else {
        None
    }
}

/// The key bytes configured under `kid`.
pub open spec fn key_for(keys: Seq<KeyView>, kid: Seq<char>) -> Option<Seq<u8>> {
    match kid_index(keys, kid) {
        Some(i) => Some(keys[i].key),
        None => None,
    }
}

/// A key id has 1 to 64 bytes, each an ASCII letter or digit, `-` or `_`.
pub open spec fn key_id_valid(kid: Seq<char>) -> bool {
    let b = vstd::utf8::encode_utf8(kid);
    &&& kid.len() > 0
    &&& b.len() <= 64
    &&& forall|i: int| 0 <= i < b.len() ==> is_identifier_byte(#[trigger] b[i])
}

/// What `insert_public_key` leaves and answers. A duplicate id is refused
/// after the new key has replaced the old one.
pub open spec fn insert_result(keys: Seq<KeyView>, kid: Seq<char>, encoded: Seq<char>) -> (
    Seq<KeyView>,
    Result<(), AuthError>,
) {
    if !key_id_valid(kid) {
        (keys, Err(AuthError::InvalidKeyId))
    } else {
        match base64url_decode(vstd::utf8::encode_utf8(encoded)) {
            None => (keys, Err(AuthError::InvalidKeyEncoding)),
            Some(bytes) => if bytes.len() != 32 {
                (keys, Err(AuthError::InvalidKeyLength))
            } else {
                match kid_index(keys, kid) {
                    Some(i) => (
                        keys.update(i, KeyView { kid, key: bytes }),
                        Err(AuthError::DuplicateKeyId),
                    ),
                    None => (keys.push(KeyView { kid, key: bytes }), Ok(())),
                }
            },
        }
    }
}

impl KeyRing {
    /// An id is held once in every key ring.
    #[verifier::type_invariant]
    closed spec fn well_formed(&self) -> bool {
        distinct_keys(self@, key_id_of())
    }

    pub fn new() -> (r: KeyRing)
        ensures
            r@.len() == 0,
    {
        let r = KeyRing { entries: Vec::new() };
        assert(r@ =~= Seq::<KeyView>::empty());
        r
    }

    pub fn len(&self) -> (r: usize)
        ensures
            r == self@.len(),
    {
        self.entries.len()
    }

    pub fn is_empty(&self) -> (r: bool)
        ensures
            r == (self@.len() == 0),
    {
        self.entries.len() == 0
    }

    fn index_of(&self, kid: &str) -> (r: Option<usize>)
        ensures
            r matches Some(i) ==> i < self@.len() && kid_index(self@, kid@) == Some(i as int),
            r is None ==> kid_index(self@, kid@) is None,
    {
        proof {
            use_type_invariant(self);
        }
        let ghost s = self@;
        let n = self.entries.len();
        for i in 0..n
            invariant
                n == self.entries.len(),
                s == self@,
                distinct_keys(s, key_id_of()),
                forall|j: int| 0 <= j < i ==> (#[trigger] s[j]).kid != kid@,
        {
            let e = &self.entries[i];
            assert(e@ == s[i as int]);
            if str_eq(e.kid.as_str(), kid) {
                proof {
                    assert(s[i as int].kid == kid@);
                    let c = choose|c: int| 0 <= c < s.len() && (#[trigger] s[c]).kid == kid@;
                    if c != i {
                        assert(key_id_of()(s[c]) == key_id_of()(s[i as int]));
                    }
                }
                return Some(i);
            }
        }
        None
    }

    /// The key bytes configured under `kid`.
    pub fn get(&self, kid: &str) -> (r: Option<[u8; 32]>)
        ensures
            r is Some <==> key_for(self@, kid@) is Some,
            r matches Some(k) ==> key_for(self@, kid@) == Some(k@),
    {
        match self.index_of(kid) {
            Some(i) => Some(self.entries[i].key),
            None => None,
        }
    }
}

/// Adds the key that `encoded` holds in base64url (without padding) under
/// `kid`; refuses a malformed id, an undecodable or wrongly sized key and an
/// id given twice.
pub fn insert_public_key(keys: &mut KeyRing, kid: &str, encoded: &str) -> (r: Result<(), AuthError>)
    ensures
        (final(keys)@, r) == insert_result(old(keys)@, kid@, encoded@),
{
    let kid_bytes = kid.as_bytes();
    if kid.is_empty() || kid_bytes.len() > 64 || !all_identifier_bytes(kid_bytes) {
        return Err(AuthError::InvalidKeyId);
    }
    let bytes = match decode_base64url(encoded.as_bytes()) {
        Ok(bytes) => bytes,
        Err(_) => return Err(AuthError::InvalidKeyEncoding),
    };
    let key = match public_key_from_slice(bytes.as_slice()) {
        Some(key) => key,
        None => return Err(AuthError::InvalidKeyLength),
    };
    let ghost s = keys@;
    let entry = KeyEntry { kid: kid.to_owned(), key };
    assert(entry@ == (KeyView { kid: kid@, key: bytes@ }));
    let found = keys.index_of(kid);
    proof {
        use_type_invariant(&*keys);
    }
    let mut entries: Vec<KeyEntry> = Vec::new();
    std::mem::swap(&mut entries, &mut keys.entries);
    assert(entries@.map_values(|e: KeyEntry| e@) == s);
    match found {
        Some(i) => {
            entries.set(i, entry);
            proof {
                let after = entries@.map_values(|e: KeyEntry| e@);
                assert(after =~= s.update(i as int, KeyView { kid: kid@, key: bytes@ }));
                assert forall|a: int, b: int|
                    0 <= a < after.len() && 0 <= b < after.len() && a != b implies key_id_of()(
                    #[trigger] after[a],
                ) != key_id_of()(#[trigger] after[b]) by {
                    assert(key_id_of()(after[a]) == key_id_of()(s[a]));
                    assert(key_id_of()(after[b]) == key_id_of()(s[b]));
                }
            }
            keys.entries = entries;
            Err(AuthError::DuplicateKeyId)
        },
        None => {
            entries.push(entry);
            proof {
                let after = entries@.map_values(|e: KeyEntry| e@);
                assert(after =~= s.push(KeyView { kid: kid@, key: bytes@ }));
                assert forall|a: int, b: int|
                    0 <= a < after.len() && 0 <= b < after.len() && a != b implies key_id_of()(
                    #[trigger] after[a],
                ) != key_id_of()(#[trigger] after[b]) by {
                    if a == after.len() - 1 {
                        assert(s[b].kid != kid@);
                    } else if b == after.len() - 1 {
                        assert(s[a].kid != kid@);
                    } else {
                        assert(after[a] == s[a] && after[b] == s[b]);
                    }
                }
            }
            keys.entries = entries;
            Ok(())
        },
    }
}

/// The keys that a comma-separated list of `kid=key` entries adds to `keys`:
/// entries are trimmed, empty ones skipped, and the first refusal ends the load.
pub open spec fn load_list(keys: Seq<KeyView>, pieces: Seq<Seq<char>>) -> Result<Seq<KeyView>, AuthError>
    decreases pieces.len(),
{
    if pieces.len() == 0 {
        Ok(keys)
    } else {
        let entry = trim(pieces[0]);
        if entry.len() == 0 {
            load_list(keys, pieces.drop_first())
        } else {
            match split_once(entry, '=') {
                None => Err(AuthError::InvalidKeyList),
                Some((kid, encoded)) => {
                    let (next, r) = insert_result(keys, trim(kid), trim(encoded));
                    match r {
                        Err(e) => Err(e),
                        Ok(_) => load_list(next, pieces.drop_first()),
                    }
                },
            }
        }
    }
}

proof fn lemma_split_step(chars: Seq<char>, pos: int, end: int, found: bool)
    requires
        0 <= pos <= end <= chars.len(),
        forall|j: int| pos <= j < end ==> chars[j] != ',',
        found ==> end < chars.len() && chars[end] == ',',
        !found ==> end == chars.len(),
    ensures
        split_all(chars.skip(pos), ',') == seq![chars.subrange(pos, end)] + (if found {
            split_all(chars.skip(end + 1), ',')
        } else {
            Seq::empty()
        }),
{
    let t = chars.skip(pos);
    if found {
        assert forall|j: int| 0 <= j < end - pos implies t[j] != ',' by {
            assert(t[j] == chars[pos + j]);
        }
        lemma_position_of_is(t, ',', end - pos);
        assert(t.take(end - pos) =~= chars.subrange(pos, end));
        assert(t.skip(end - pos + 1) =~= chars.skip(end + 1));
    } else {
        assert forall|j: int| 0 <= j < t.len() implies t[j] != ',' by {
            assert(t[j] == chars[pos + j]);
        }
        lemma_position_of_none(t, ',');
        assert(t =~= chars.subrange(pos, end));
        assert(seq![t] + Seq::<Seq<char>>::empty() =~= seq![t]);
    }
}

/// Trims `chars[from..to]` and hands out the trimmed part as a string.
fn trimmed_part<'a>(text: &'a str, chars: &Vec<char>, from: usize, to: usize) -> (r: &'a str)
    requires
        chars@ == text@,
        from <= to <= chars.len(),
    ensures
        r@ == trim(text@.subrange(from as int, to as int)),
{
    let (s, e) = trim_bounds(chars, from, to);
    text.substring_char(s, e)
}

/// Loads the keys of a comma-separated list of `kid=key` entries into `keys`.
fn load_key_list(keys: &mut KeyRing, list: &str) -> (r: Result<(), AuthError>)
    ensures
        match load_list(old(keys)@, split_all(list@, ',')) {
            Ok(k) => r is Ok && final(keys)@ == k,
            Err(e) => r == Err::<(), AuthError>(e),
        },
{
    let ghost goal = load_list(keys@, split_all(list@, ','));
    let chars = chars_of(list);
    let n = chars.len();
    let mut pos: usize = 0;
    assert(chars@.skip(0) =~= chars@);
    loop
        invariant
            pos <= n == chars@.len(),
            chars@ == list@,
            goal == load_list(old(keys)@, split_all(list@, ',')),
            goal == load_list(keys@, split_all(chars@.skip(pos as int), ',')),
        decreases n - pos,
    {
        let next = find_char(&chars, ',', pos, n);
        let end = match next {
            Some(j) => j,
            None => n,
        };
        proof {
            lemma_split_step(chars@, pos as int, end as int, next is Some);
        }
        let ghost piece = chars@.subrange(pos as int, end as int);
        let ghost rest = if next is Some {
            split_all(chars@.skip(end + 1), ',')
        } else {
            Seq::<Seq<char>>::empty()
        };
        let ghost pieces = seq![piece] + rest;
        assert(pieces[0] == piece);
        assert(pieces.drop_first() =~= rest);
        let (s, e) = trim_bounds(&chars, pos, end);
        if s < e {
            let ghost entry = chars@.subrange(s as int, e as int);
            match find_char(&chars, '=', s, e) {
                None => {
                    proof {
                        assert forall|j: int| 0 <= j < entry.len() implies entry[j] != '=' by {
                            assert(entry[j] == chars@[s + j]);
                        }
                        lemma_position_of_none(entry, '=');
                    }
                    return Err(AuthError::InvalidKeyList);
                },
                Some(p) => {
                    proof {
                        assert forall|j: int| 0 <= j < p - s implies entry[j] != '=' by {
                            assert(entry[j] == chars@[s + j]);
                        }
                        lemma_position_of_is(entry, '=', p - s);
                        assert(entry.take(p - s) =~= chars@.subrange(s as int, p as int));
                        assert(entry.skip(p - s + 1) =~= chars@.subrange(p + 1, e as int));
                    }
                    let kid = trimmed_part(list, &chars, s, p);
                    let encoded = trimmed_part(list, &chars, p + 1, e);
                    let r = insert_public_key(keys, kid, encoded);
                    if r.is_err() {
                        return r;
                    }
                },
            }
        }
        match next {
            None => {
                assert(rest =~= Seq::<Seq<char>>::empty());
                assert(load_list(keys@, rest) == Ok::<Seq<KeyView>, AuthError>(keys@));
                return Ok(());
            },
            Some(j) => {
                pos = j + 1;
            },
        }
    }
}

/// The configuration, as the contracts see it.
pub struct AuthConfigView {
    pub required: bool,
    pub keys: Seq<KeyView>,
}

/// Whether authorization is required, and the keys that tokens are checked
/// against. Authorization is enabled exactly when a key is configured.
pub struct AuthConfig {
    required: bool,
    keys: KeyRing,
}

impl View for AuthConfig {
    type V = AuthConfigView;

    closed spec fn view(&self) -> AuthConfigView {
        AuthConfigView { required: self.required, keys: self.keys@ }
    }
}

pub open spec fn text_of(o: Option<&str>) -> Option<Seq<char>> {
    match o {
        Some(s) => Some(s@),
        None => None,
    }
}

pub open spec fn default_key_id() -> Seq<char> {
    "relaisdesk-1"@
}

/// The configuration that the settings describe: the key list first, then
/// the single key (under `key_id`, by default `relaisdesk-1`), and a
/// refusal when authorization is required but no key was given.
pub open spec fn settings_result(
    required: bool,
    key_list: Option<Seq<char>>,
    public_key: Option<Seq<char>>,
    key_id: Option<Seq<char>>,
) -> Result<AuthConfigView, AuthError> {
    let listed = match key_list {
        Some(list) => load_list(Seq::empty(), split_all(list, ',')),
        None => Ok(Seq::empty()),
    };
    match listed {
        Err(e) => Err(e),
        Ok(keys) => {
            let with_single = match public_key {
                Some(encoded) => if trim(encoded).len() == 0 {
                    Ok(keys)
                } else {
                    let kid = match key_id {
                        Some(k) => k,
                        None => default_key_id(),
                    };
                    let (next, r) = insert_result(keys, trim(kid), trim(encoded));
                    match r {
                        Err(e) => Err(e),
                        Ok(_) => Ok(next),
                    }
                },
                None => Ok(keys),
            };
            match with_single {
                Err(e) => Err(e),
                Ok(keys) => if required && keys.len() == 0 {
                    Err(AuthError::RequiredWithoutKey)
                } else {
                    Ok(AuthConfigView { required, keys })
                },
            }
        },
    }
}

/// `to_ascii_lowercase` on one character.
pub open spec fn ascii_lower(c: char) -> char {
    if 'A' <= c <= 'Z' {
        ((c as u32) + 32) as char
    } else {
        c
    }
}

/// Whether a setting's value turns an option on: `1`, `true`, `yes` or `y`,
/// in any ASCII case, around white space.
pub open spec fn truthy(value: Seq<char>) -> bool {
    let t = trim(value).map_values(|c: char| ascii_lower(c));
    t == "1"@ || t == "true"@ || t == "yes"@ || t == "y"@
}

impl AuthConfig {

    /// Whether tokens are checked: some key is configured.
    pub fn enabled(&self) -> (r: bool)
        ensures
            r == (self@.keys.len() > 0),
    {
        !self.keys.is_empty()
    }

    /// Whether authorization must be in force.
    pub fn required(&self) -> (r: bool)
        ensures
            r == self@.required,
    {
        self.required
    }

    /// The key configured under `kid`.
    pub fn key(&self, kid: &str) -> (r: Option<[u8; 32]>)
        ensures
            r is Some <==> key_for(self@.keys, kid@) is Some,
            r matches Some(k) ==> key_for(self@.keys, kid@) == Some(k@),
    {
        self.keys.get(kid)
    }

    /// The configuration that the settings describe (see `settings_result`).
    pub fn parse_settings(
        required: bool,
        key_list: Option<&str>,
        public_key: Option<&str>,
        key_id: Option<&str>,
    ) -> (r: Result<AuthConfig, AuthError>)
        ensures
            r is Ok <==> settings_result(required, text_of(key_list), text_of(public_key), text_of(key_id)) is Ok,
            r matches Ok(c) ==> Ok::<AuthConfigView, AuthError>(c@) == settings_result(
                required,
                text_of(key_list),
                text_of(public_key),
                text_of(key_id),
            ),
            r matches Err(e) ==> Err::<AuthConfigView, AuthError>(e) == settings_result(
                required,
                text_of(key_list),
                text_of(public_key),
                text_of(key_id),
            ),
    {
        let mut keys = KeyRing::new();
        assert(keys@ =~= Seq::<KeyView>::empty());
        if let Some(list) = key_list {
            let r = load_key_list(&mut keys, list);
            if let Err(e) = r {
                return Err(e);
            }
        }
        let ghost listed = keys@;
        if let Some(encoded) = public_key {
            let encoded_chars = chars_of(encoded);
            let encoded_trimmed = trimmed_part(encoded, &encoded_chars, 0, encoded_chars.len());
            assert(encoded@.subrange(0, encoded@.len() as int) =~= encoded@);
            if !encoded_trimmed.is_empty() {
                let kid = match key_id {
                    Some(k) => k,
                    None => "relaisdesk-1",
                };
                let kid_chars = chars_of(kid);
                let kid_trimmed = trimmed_part(kid, &kid_chars, 0, kid_chars.len());
                assert(kid@.subrange(0, kid@.len() as int) =~= kid@);
                let r = insert_public_key(&mut keys, kid_trimmed, encoded_trimmed);
                if let Err(e) = r {
                    return Err(e);
                }
            }
        }
        if required && keys.is_empty() {
            return Err(AuthError::RequiredWithoutKey);
        }
        Ok(AuthConfig { required, keys })
    }

    /// The configuration that the settings describe, once the cryptographic
    /// library's initialization gave `init`: its failure is `CryptoInit`.
    pub fn from_settings_after(
        init: Result<(), ()>,
        required: bool,
        key_list: Option<&str>,
        public_key: Option<&str>,
        key_id: Option<&str>,
    ) -> (r: Result<AuthConfig, AuthError>)
        ensures
            init is Err ==> (r matches Err(e) && e == AuthError::CryptoInit),
            init is Ok ==> (r is Ok <==> settings_result(
                required,
                text_of(key_list),
                text_of(public_key),
                text_of(key_id),
            ) is Ok),
            init is Ok ==> (r matches Ok(c) ==> Ok::<AuthConfigView, AuthError>(c@)
                == settings_result(required, text_of(key_list), text_of(public_key), text_of(key_id))),
            init is Ok ==> (r matches Err(e) ==> Err::<AuthConfigView, AuthError>(e)
                == settings_result(required, text_of(key_list), text_of(public_key), text_of(key_id))),
    {
        if init.is_err() {
            return Err(AuthError::CryptoInit);
        }
        AuthConfig::parse_settings(required, key_list, public_key, key_id)
    }

    /// Initializes the cryptographic library, then builds the configuration
    /// that the settings describe. Only the initialization can fail beyond
    /// what `settings_result` says.
    pub fn from_settings(
        required: bool,
        key_list: Option<&str>,
        public_key: Option<&str>,
        key_id: Option<&str>,
    ) -> (r: Result<AuthConfig, AuthError>)
        ensures
            r matches Ok(c) ==> Ok::<AuthConfigView, AuthError>(c@) == settings_result(
                required,
                text_of(key_list),
                text_of(public_key),
                text_of(key_id),
            ),
            r matches Err(e) ==> e == AuthError::CryptoInit || Err::<AuthConfigView, AuthError>(e) == settings_result(
                required,
                text_of(key_list),
                text_of(public_key),
                text_of(key_id),
            ),
    {
        AuthConfig::from_settings_after(sodium_init(), required, key_list, public_key, key_id)
    }
}

/// Whether a setting's value turns an option on (see `truthy`).
pub fn is_truthy(value: &str) -> (r: bool)
    ensures
        r == truthy(value@),
{
    let chars = chars_of(value);
    let (s, e) = trim_bounds(&chars, 0, chars.len());
    assert(value@.subrange(0, value@.len() as int) =~= value@);
    lowered_equals(&chars, s, e, "1") || lowered_equals(&chars, s, e, "true") || lowered_equals(
        &chars,
        s,
        e,
        "yes",
    ) || lowered_equals(&chars, s, e, "y")
}

/// Whether `chars[s..e]`, lowered to ASCII lower case, reads `target`.
fn lowered_equals(chars: &Vec<char>, s: usize, e: usize, target: &str) -> (r: bool)
    requires
        s <= e <= chars.len(),
    ensures
        r == (chars@.subrange(s as int, e as int).map_values(|c: char| ascii_lower(c)) == target@),
{
    let t = chars_of(target);
    let ghost low = chars@.subrange(s as int, e as int).map_values(|c: char| ascii_lower(c));
    if e - s != t.len() {
        assert(low.len() != target@.len());
        return false;
    }
    let mut i: usize = 0;
    while i < t.len()
        invariant
            s <= e <= chars.len(),
            e - s == t@.len(),
            t@ == target@,
            low == chars@.subrange(s as int, e as int).map_values(|c: char| ascii_lower(c)),
            0 <= i <= t@.len(),
            forall|j: int| 0 <= j < i ==> low[j] == t@[j],
        decreases t@.len() - i,
    {
        let c = chars[s + i];
        let want = t[i];
        assert(low[i as int] == ascii_lower(c));
        let same = if 'A' <= c && c <= 'Z' {
            (c as u32) + 32 == (want as u32)
        } else {
            c == want
        };
        proof {
            vstd::utf8::char_u32_cast(want, want as u32);
            if 'A' <= c <= 'Z' {
                let v = ((c as u32) + 32) as u32;
                assert((v as char) as u32 == v);
            }
        }
        if !same {
            return false;
        }
        i = i + 1;
    }
    assert(low =~= target@);
    true
}

/// Whether authorization is enabled, or the error that the configuration
/// failed with.
pub fn validate_configuration(config: &Result<AuthConfig, AuthError>) -> (r: Result<bool, AuthError>)
    ensures
        match config {
            Ok(c) => r == Ok::<bool, AuthError>(c@.keys.len() > 0),
            Err(e) => r == Err::<bool, AuthError>(*e),
        },
{
    match config {
        Ok(c) => Ok(c.enabled()),
        Err(e) => Err(*e),
    }
}

/// Authorization that is required never starts without a key: a
/// configuration that requires it and is accepted holds at least one key.
pub proof fn law_required_has_keys(
    key_list: Option<Seq<char>>,
    public_key: Option<Seq<char>>,
    key_id: Option<Seq<char>>,
)
    requires
        settings_result(true, key_list, public_key, key_id) is Ok,
    ensures
        settings_result(true, key_list, public_key, key_id)->Ok_0.keys.len() > 0,
        settings_result(true, key_list, public_key, key_id)->Ok_0.required,
{
}

proof fn lemma_load_list_errors(keys: Seq<KeyView>, pieces: Seq<Seq<char>>)
    ensures
        load_list(keys, pieces) != Err::<Seq<KeyView>, AuthError>(AuthError::RequiredWithoutKey),
    decreases pieces.len(),
{
    if pieces.len() > 0 {
        let entry = trim(pieces[0]);
        if entry.len() == 0 {
            lemma_load_list_errors(keys, pieces.drop_first());
        } else {
            match split_once(entry, '=') {
                None => {},
                Some((kid, encoded)) => {
                    let (next, r) = insert_result(keys, trim(kid), trim(encoded));
                    lemma_load_list_errors(next, pieces.drop_first());
                },
            }
        }
    }
}

/// Required authorization is refused for want of a key only when no key at
/// all was configured: the key list (if any) adds none and the single key is
/// absent or blank.
pub proof fn law_required_refused_only_without_any_key(
    required: bool,
    key_list: Option<Seq<char>>,
    public_key: Option<Seq<char>>,
    key_id: Option<Seq<char>>,
)
    ensures
        settings_result(required, key_list, public_key, key_id) == Err::<AuthConfigView, AuthError>(
            AuthError::RequiredWithoutKey,
        ) ==> {
            &&& required
            &&& (key_list is Some ==> load_list(Seq::empty(), split_all(key_list->Some_0, ','))
                == Ok::<Seq<KeyView>, AuthError>(Seq::empty()))
            &&& (public_key is Some ==> trim(public_key->Some_0).len() == 0)
        },
{
    let listed = match key_list {
        Some(list) => load_list(Seq::empty(), split_all(list, ',')),
        None => Ok(Seq::empty()),
    };
    if let Some(list) = key_list {
        lemma_load_list_errors(Seq::empty(), split_all(list, ','));
    }
    if let Ok(keys) = listed {
        if let Some(encoded) = public_key {
            if trim(encoded).len() != 0 {
                let kid = match key_id {
                    Some(k) => k,
                    None => default_key_id(),
                };
                let (next, r) = insert_result(keys, trim(kid), trim(encoded));
                if r is Ok {
                    assert(next.len() == keys.len() + 1);
                }
            }
        }
        if keys.len() == 0 {
            assert(keys =~= Seq::<KeyView>::empty());
        }
    }
}

/// A well-formed single key is enough to configure authorization, required
/// or not: when the key list (if any) loads without that id, the settings are
/// accepted and hold the single key, under its id (by default
/// `relaisdesk-1`), next to the listed keys.
pub proof fn law_single_key_configures(
    required: bool,
    key_list: Option<Seq<char>>,
    encoded: Seq<char>,
    key_id: Option<Seq<char>>,
    listed: Seq<KeyView>,
)
    requires
        match key_list {
            None => listed == Seq::<KeyView>::empty(),
            Some(list) => load_list(Seq::empty(), split_all(list, ','))
                == Ok::<Seq<KeyView>, AuthError>(listed),
        },
        trim(encoded).len() > 0,
        key_id_valid(trim(match key_id { Some(k) => k, None => "relaisdesk-1"@ })),
        key_for(listed, trim(match key_id { Some(k) => k, None => "relaisdesk-1"@ })) is None,
        base64url_decode(vstd::utf8::encode_utf8(trim(encoded))) is Some,
        base64url_decode(vstd::utf8::encode_utf8(trim(encoded)))->Some_0.len() == 32,
    ensures
        settings_result(required, key_list, Some(encoded), key_id) is Ok,
        settings_result(required, key_list, Some(encoded), key_id)->Ok_0.required == required,
        settings_result(required, key_list, Some(encoded), key_id)->Ok_0.keys.len() == listed.len() + 1,
        key_for(
            settings_result(required, key_list, Some(encoded), key_id)->Ok_0.keys,
            trim(match key_id { Some(k) => k, None => "relaisdesk-1"@ }),
        ) == base64url_decode(vstd::utf8::encode_utf8(trim(encoded))),
        settings_result(required, key_list, Some(encoded), key_id)->Ok_0.keys.take(listed.len() as int)
            == listed,
{
    let kid = trim(match key_id { Some(k) => k, None => "relaisdesk-1"@ });
    assert(default_key_id() == "relaisdesk-1"@);
    let bytes = base64url_decode(vstd::utf8::encode_utf8(trim(encoded)))->Some_0;
    let added = KeyView { kid, key: bytes };
    let next = listed.push(added);
    assert(kid_index(listed, kid) is None);
    assert(insert_result(listed, kid, trim(encoded)) == (next, Ok::<(), AuthError>(())));
    let n = listed.len() as int;
    assert(next[n].kid == kid);
    let i = choose|i: int| 0 <= i < next.len() && (#[trigger] next[i]).kid == kid;
    if i != n {
        assert(next[i] == listed[i]);
        assert(listed[i].kid == kid);
    }
    assert(next.take(n) =~= listed);
}

} // verus!
