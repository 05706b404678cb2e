//! Active registrations: which devices currently hold an authorization, with
//! the per-tenant quota for technicians and exclusive use for viewers.
use vstd::prelude::*;
use crate::claims::{technician_role, viewer_role, Claims};
use crate::clock::now_seconds;
use crate::error::AuthError;
use crate::seqs::{
    distinct_keys, lemma_filter_keeps_distinct, lemma_filter_len_pointwise, lemma_filter_len_weaker,
};
use crate::text::{bytes_less, bytes_lt, str_eq};

verus! {

/// How long a registration stays active after it was last reserved, in seconds.
pub const ACTIVE_REGISTRATION_TTL_SECONDS: i64 = 35;

/// Most registrations held at once.
pub const MAX_ACTIVE_REGISTRATIONS: usize = 100_000;

/// One active registration, as the contracts see it.
pub struct RegistrationView {
    pub role: Seq<char>,
    pub scope: Seq<char>,
    pub device: Seq<char>,
    pub expires_at: i64,
    pub sequence: u64,
}

/// The registrations held and the sequence number the next new one gets.
pub struct RegistrationCacheView {
    pub entries: Seq<RegistrationView>,
    pub next_sequence: u64,
}

/// A device registered under a role and a scope (the tenant of a technician,
/// the subject of a viewer).
pub struct Registration {
    role: String,
    scope: String,
    device_public_key: String,
    expires_at: i64,
    sequence: u64,
}

impl View for Registration {
    type V = RegistrationView;

    closed spec fn view(&self) -> RegistrationView {
        RegistrationView {
            role: self.role@,
            scope: self.scope@,
            device: self.device_public_key@,
            expires_at: self.expires_at,
            sequence: self.sequence,
        }
    }
}

impl Registration {
    fn with_expiry(&self, expires_at: i64) -> (r: Registration)
        ensures
            r@ == (RegistrationView { expires_at, ..self@ }),
    {
        Registration {
            role: self.role.clone(),
            scope: self.scope.clone(),
            device_public_key: self.device_public_key.clone(),
            expires_at,
            sequence: self.sequence,
        }
    }

    fn duplicate(&self) -> (r: Registration)
        ensures
            r@ == self@,
    {
        self.with_expiry(self.expires_at)
    }
}

/// The devices that hold an authorization now. Keyed by role, scope and
/// device; the order of the entries carries no meaning.
pub struct RegistrationCache {
    entries: Vec<Registration>,
    next_sequence: u64,
}

impl View for RegistrationCache {
    type V = RegistrationCacheView;

    closed spec fn view(&self) -> RegistrationCacheView {
        RegistrationCacheView {
            entries: self.entries@.map_values(|r: Registration| r@),
            next_sequence: self.next_sequence,
        }
    }
}

pub open spec fn has_key(e: RegistrationView, role: Seq<char>, scope: Seq<char>, device: Seq<char>) -> bool {
    e.role == role && e.scope == scope && e.device == device
}

/// What a registration is keyed by.
pub open spec fn registration_key() -> spec_fn(RegistrationView) -> (Seq<char>, Seq<char>, Seq<char>) {
    |e: RegistrationView| (e.role, e.scope, e.device)
}

/// No two entries share role, scope and device, and no more than
/// `MAX_ACTIVE_REGISTRATIONS` are held.
pub open spec fn entries_well_formed(s: Seq<RegistrationView>) -> bool {
    distinct_keys(s, registration_key()) && s.len() <= MAX_ACTIVE_REGISTRATIONS
}

pub open spec fn is_live(now: i64) -> spec_fn(RegistrationView) -> bool {
    |e: RegistrationView| e.expires_at > now
}

/// Where the entry with this key stands, if there is one.
pub open spec fn key_index(s: Seq<RegistrationView>, role: Seq<char>, scope: Seq<char>, device: Seq<char>) -> Option<int> {
    if exists|i: int| 0 <= i < s.len() && #[trigger] has_key(s[i], role, scope, device) {
        Some(choose|i: int| 0 <= i < s.len() && #[trigger] has_key(s[i], role, scope, device))
    } else {
        None
    }
}

pub open spec fn in_group(role: Seq<char>, scope: Seq<char>) -> spec_fn(RegistrationView) -> bool {
    |e: RegistrationView| e.role == role && e.scope == scope
}

/// The entries of a group that were registered before (`sequence`, `device`):
/// by sequence number, then by the device's bytes.
pub open spec fn ahead_of(role: Seq<char>, scope: Seq<char>, sequence: u64, device: Seq<char>) -> spec_fn(
    RegistrationView,
) -> bool {
    |e: RegistrationView|
        e.role == role && e.scope == scope && (e.sequence < sequence || (e.sequence == sequence
            && bytes_lt(vstd::utf8::encode_utf8(e.device), vstd::utf8::encode_utf8(device))))
}

/// A technician's device is refused when it is already registered behind
/// `max_sessions` others of its tenant, or, new, finds `max_sessions` there.
pub open spec fn over_quota(s: Seq<RegistrationView>, c: Claims) -> bool {
    match key_index(s, c.role@, c.tenant@, c.device_public_key@) {
        Some(i) => s.filter(ahead_of(c.role@, c.tenant@, s[i].sequence, s[i].device)).len()
            >= c.max_sessions,
        None => s.filter(in_group(c.role@, c.tenant@)).len() >= c.max_sessions,
    }
}

/// Another device holds the viewer's authorization.
pub open spec fn viewer_taken(s: Seq<RegistrationView>, c: Claims) -> bool {
    exists|i: int|
        0 <= i < s.len() && (#[trigger] s[i]).role == c.role@ && s[i].scope == c.sub@
            && s[i].device != c.device_public_key@
}

/// The scope a role registers under: the tenant for a technician, the
/// subject for a viewer.
pub open spec fn registration_scope(c: Claims) -> Option<Seq<char>> {
    if c.role@ == technician_role() {
        Some(c.tenant@)
    } else if c.role@ == viewer_role() {
        Some(c.sub@)
    } else {
        None
    }
}

pub open spec fn ttl_deadline(now: i64) -> i64 {
    if now > i64::MAX - ACTIVE_REGISTRATION_TTL_SECONDS {
        i64::MAX
    } else {
        (now + ACTIVE_REGISTRATION_TTL_SECONDS) as i64
    }
}

/// A registration ends with the token or after its time to live.
pub open spec fn registration_expiry(c: Claims, now: i64) -> i64 {
    if c.exp <= ttl_deadline(now) {
        c.exp
    } else {
        ttl_deadline(now)
    }
}

pub open spec fn next_after(n: u64) -> u64 {
    if n == u64::MAX {
        0
    } else {
        (n + 1) as u64
    }
}

/// What `reserve` leaves and answers: expired entries go first, whatever
/// follows.
pub open spec fn reserve_result(old: RegistrationCacheView, c: Claims, now: i64) -> (
    RegistrationCacheView,
    Result<(), AuthError>,
) {
    let live = old.entries.filter(is_live(now));
    let kept = RegistrationCacheView { entries: live, next_sequence: old.next_sequence };
    match registration_scope(c) {
        None => (kept, Err(AuthError::InvalidRole)),
        Some(scope) => if c.role@ == technician_role() && over_quota(live, c) {
            (kept, Err(AuthError::DeviceLimit))
        } else if c.role@ != technician_role() && viewer_taken(live, c) {
            (kept, Err(AuthError::ViewerInUse))
        } else {
            let expires_at = registration_expiry(c, now);
            match key_index(live, c.role@, scope, c.device_public_key@) {
                Some(i) => (
                    RegistrationCacheView {
                        entries: live.update(i, RegistrationView { expires_at, ..live[i] }),
                        next_sequence: old.next_sequence,
                    },
                    Ok(()),
                ),
                None => if live.len() >= MAX_ACTIVE_REGISTRATIONS {
                    (kept, Err(AuthError::RegistrationCacheFull))
                } else {
                    (
                        RegistrationCacheView {
                            entries: live.push(
                                RegistrationView {
                                    role: c.role@,
                                    scope,
                                    device: c.device_public_key@,
                                    expires_at,
                                    sequence: old.next_sequence,
                                },
                            ),
                            next_sequence: next_after(old.next_sequence),
                        },
                        Ok(()),
                    )
                },
            }
        },
    }
}

impl RegistrationCache {
    /// Registrations are keyed uniquely and within bounds in every cache.
    #[verifier::type_invariant]
    closed spec fn well_formed(&self) -> bool {
        entries_well_formed(self@.entries)
    }

    /// An empty cache whose first registration gets sequence number 0.
    pub fn new() -> (r: RegistrationCache)
        ensures
            entries_well_formed(r@.entries),
            r@.entries.len() == 0,
            r@.next_sequence == 0,
    {
        let r = RegistrationCache { entries: Vec::new(), next_sequence: 0 };
        assert(r@.entries =~= Seq::<RegistrationView>::empty());
        r
    }

    /// The number of registrations held.
    pub fn len(&self) -> (r: usize)
        ensures
            r == self@.entries.len(),
    {
        self.entries.len()
    }

    /// Forgets the registrations that expire at or before `now`.
    fn drop_expired(&mut self, now: i64)
        ensures
            entries_well_formed(final(self)@.entries),
            final(self)@.entries == old(self)@.entries.filter(is_live(now)),
            final(self)@.next_sequence == old(self)@.next_sequence,
    {
        proof {
            use_type_invariant(&*self);
        }
        let ghost ov = self@.entries;
        let mut kept: Vec<Registration> = Vec::new();
        let n = self.entries.len();
        for i in 0..n
            invariant
                n == self.entries.len(),
                ov == self@.entries,
                entries_well_formed(ov),
                kept@.map_values(|r: Registration| r@) == ov.take(i as int).filter(is_live(now)),
        {
            proof {
                assert(ov.take(i + 1) =~= ov.take(i as int).push(ov[i as int]));
                ov.take(i as int).lemma_filter_push(ov[i as int], is_live(now));
            }
            if self.entries[i].expires_at > now {
                let ghost before = kept@.map_values(|r: Registration| r@);
                let e = self.entries[i].duplicate();
                kept.push(e);
                assert(kept@.map_values(|r: Registration| r@) =~= before.push(ov[i as int]));
            }
        }
        proof {
            assert(ov.take(n as int) =~= ov);
            lemma_filter_keeps_distinct(ov, registration_key(), is_live(now));
        }
        self.entries = kept;
    }

    /// Registers the device of `claims` at `now`, after forgetting the
    /// registrations that expired. A technician's device must rank within
    /// `max_sessions` of its tenant; a viewer's authorization is held by one
    /// device at a time. A device already registered keeps its place and gets
    /// a new expiry; a new one gets the next sequence number.
    pub fn reserve(&mut self, claims: &Claims, now: i64) -> (r: Result<(), AuthError>)
        ensures
            entries_well_formed(final(self)@.entries),
            (final(self)@, r) == reserve_result(old(self)@, *claims, now),
    {
        proof {
            use_type_invariant(&*self);
            law_reserve_keeps_well_formed(self@, *claims, now);
        }
        self.drop_expired(now);
        let ghost live = self@.entries;
        let technician = claims.is_technician();
        let viewer = claims.is_viewer();
        if !technician && !viewer {
            return Err(AuthError::InvalidRole);
        }
        let role = claims.role.as_str();
        let scope = if technician {
            claims.tenant.as_str()
        } else {
            claims.sub.as_str()
        };
        let device = claims.device_public_key.as_str();
        let found = self.find_key(role, scope, device);
        if technician {
            match found {
                Some(i) => {
                    let ahead = self.count_ahead(
                        role,
                        scope,
                        self.entries[i].sequence,
                        self.entries[i].device_public_key.as_str(),
                    );
                    if ahead >= claims.max_sessions as usize {
                        return Err(AuthError::DeviceLimit);
                    }
                },
                None => {
                    if self.count_group(role, scope) >= claims.max_sessions as usize {
                        return Err(AuthError::DeviceLimit);
                    }
                },
            }
        } else if self.held_by_other(role, scope, device) {
            return Err(AuthError::ViewerInUse);
        }
        let deadline = if now > i64::MAX - ACTIVE_REGISTRATION_TTL_SECONDS {
            i64::MAX
        } else {
            now + ACTIVE_REGISTRATION_TTL_SECONDS
        };
        let expires_at = if claims.exp <= deadline {
            claims.exp
        } else {
            deadline
        };
        match found {
            Some(i) => {
                let updated = self.entries[i].with_expiry(expires_at);
                let mut entries: Vec<Registration> = Vec::new();
                std::mem::swap(&mut entries, &mut self.entries);
                entries.set(i, updated);
                assert(entries@.map_values(|r: Registration| r@) =~= live.update(
                    i as int,
                    RegistrationView { expires_at, ..live[i as int] },
                ));
                self.entries = entries;
                Ok(())
            },
            None => {
                if self.entries.len() >= MAX_ACTIVE_REGISTRATIONS {
                    return Err(AuthError::RegistrationCacheFull);
                }
                let sequence = self.next_sequence;
                self.next_sequence = self.next_sequence.wrapping_add(1);
                let scope_owned = if technician {
                    claims.tenant.clone()
                } else {
                    claims.sub.clone()
                };
                let mut entries: Vec<Registration> = Vec::new();
                std::mem::swap(&mut entries, &mut self.entries);
                entries.push(
                    Registration {
                        role: claims.role.clone(),
                        scope: scope_owned,
                        device_public_key: claims.device_public_key.clone(),
                        expires_at,
                        sequence,
                    },
                );
                assert(entries@.map_values(|r: Registration| r@) =~= live.push(
                    RegistrationView {
                        role: claims.role@,
                        scope: scope@,
                        device: claims.device_public_key@,
                        expires_at,
                        sequence,
                    },
                ));
                self.entries = entries;
                Ok(())
            },
        }
    }

    /// Where the entry with this role, scope and device stands.
    fn find_key(&self, role: &str, scope: &str, device: &str) -> (r: Option<usize>)
        ensures
            r matches Some(i) ==> i < self@.entries.len() && key_index(
                self@.entries,
                role@,
                scope@,
                device@,
            ) == Some(i as int),
            r is None ==> key_index(self@.entries, role@, scope@, device@) is None,
    {
        proof {
            use_type_invariant(self);
        }
        let ghost s = self@.entries;
        let n = self.entries.len();
        for i in 0..n
            invariant
                n == self.entries.len(),
                s == self@.entries,
                entries_well_formed(s),
                forall|j: int| 0 <= j < i ==> !has_key(#[trigger] s[j], role@, scope@, device@),
        {
            let e = &self.entries[i];
            assert(e@ == s[i as int]);
            if str_eq(e.role.as_str(), role) && str_eq(e.scope.as_str(), scope) && str_eq(
                e.device_public_key.as_str(),
                device,
            ) {
                proof {
                    assert(has_key(s[i as int], role@, scope@, device@));
                    let c = choose|c: int| 0 <= c < s.len() && #[trigger] has_key(s[c], role@, scope@, device@);
                    if c != i {
                        assert(registration_key()(s[c]) == registration_key()(s[i as int]));
                    }
                }
                return Some(i);
            }
        }
        None
    }

    /// How many entries hold `role` and `scope`.
    fn count_group(&self, role: &str, scope: &str) -> (r: usize)
        ensures
            r == self@.entries.filter(in_group(role@, scope@)).len(),
    {
        let ghost s = self@.entries;
        let n = self.entries.len();
        let mut count: usize = 0;
        for i in 0..n
            invariant
                n == self.entries.len(),
                s == self@.entries,
                count == s.take(i as int).filter(in_group(role@, scope@)).len(),
                count <= i,
        {
            proof {
                assert(s.take(i + 1) =~= s.take(i as int).push(s[i as int]));
                s.take(i as int).lemma_filter_len_push(in_group(role@, scope@), s[i as int]);
            }
            let e = &self.entries[i];
            assert(e@ == s[i as int]);
            if str_eq(e.role.as_str(), role) && str_eq(e.scope.as_str(), scope) {
                count = count + 1;
            }
        }
        assert(s.take(n as int) =~= s);
        count
    }

    /// How many entries of the group of `role` and `scope` come before
    /// (`sequence`, `device`).
    fn count_ahead(&self, role: &str, scope: &str, sequence: u64, device: &str) -> (r: usize)
        ensures
            r == self@.entries.filter(ahead_of(role@, scope@, sequence, device@)).len(),
    {
        let ghost s = self@.entries;
        let n = self.entries.len();
        let mut count: usize = 0;
        for i in 0..n
            invariant
                n == self.entries.len(),
                s == self@.entries,
                count == s.take(i as int).filter(ahead_of(role@, scope@, sequence, device@)).len(),
                count <= i,
        {
            proof {
                assert(s.take(i + 1) =~= s.take(i as int).push(s[i as int]));
                s.take(i as int).lemma_filter_len_push(
                    ahead_of(role@, scope@, sequence, device@),
                    s[i as int],
                );
            }
            let e = &self.entries[i];
            assert(e@ == s[i as int]);
            if str_eq(e.role.as_str(), role) && str_eq(e.scope.as_str(), scope) && (e.sequence
                < sequence || (e.sequence == sequence && bytes_less(
                e.device_public_key.as_str().as_bytes(),
                device.as_bytes(),
            ))) {
                count = count + 1;
            }
        }
        assert(s.take(n as int) =~= s);
        count
    }

    /// Whether an entry of `role` and `scope` belongs to a device other than
    /// `device`.
    fn held_by_other(&self, role: &str, scope: &str, device: &str) -> (r: bool)
        ensures
            r == exists|i: int|
                0 <= i < self@.entries.len() && (#[trigger] self@.entries[i]).role == role@
                    && self@.entries[i].scope == scope@ && self@.entries[i].device != device@,
    {
        let ghost s = self@.entries;
        let n = self.entries.len();
        for i in 0..n
            invariant
                n == self.entries.len(),
                s == self@.entries,
                forall|j: int|
                    0 <= j < i ==> !((#[trigger] s[j]).role == role@ && s[j].scope == scope@
                        && s[j].device != device@),
        {
            let e = &self.entries[i];
            assert(e@ == s[i as int]);
            if str_eq(e.role.as_str(), role) && str_eq(e.scope.as_str(), scope) && !str_eq(
                e.device_public_key.as_str(),
                device,
            ) {
                assert(s[i as int].role == role@);
                return true;
            }
        }
        false
    }
}

impl Default for RegistrationCache {
    fn default() -> (r: RegistrationCache)
        ensures
            entries_well_formed(r@.entries),
            r@.entries.len() == 0,
            r@.next_sequence == 0,
    {
        RegistrationCache::new()
    }
}

/// Reserves a registration for `claims` by a clock reading; without claims
/// (authorization disabled) there is nothing to reserve, and a failed
/// reading is reported and changes nothing.
pub fn reserve_registration_by(
    claims: &Option<Claims>,
    clock: Result<i64, AuthError>,
    cache: &mut RegistrationCache,
) -> (r: Result<(), AuthError>)
    ensures
        entries_well_formed(final(cache)@.entries),
        match claims {
            None => r is Ok && final(cache)@ == old(cache)@,
            Some(c) => match clock {
                Err(e) => r == Err::<(), AuthError>(e) && final(cache)@ == old(cache)@,
                Ok(now) => (final(cache)@, r) == reserve_result(old(cache)@, *c, now),
            },
        },
{
    proof {
        use_type_invariant(&*cache);
    }
    match claims {
        None => Ok(()),
        Some(c) => match clock {
            Err(e) => Err(e),
            Ok(now) => cache.reserve(c, now),
        },
    }
}

/// Reserves a registration for `claims` by the system clock; without claims
/// (authorization disabled) there is nothing to reserve.
pub fn reserve_registration(claims: &Option<Claims>, cache: &mut RegistrationCache) -> (r: Result<(), AuthError>)
    ensures
        entries_well_formed(final(cache)@.entries),
        match claims {
            None => r is Ok && final(cache)@ == old(cache)@,
            Some(c) => (r == Err::<(), AuthError>(AuthError::InvalidClock) && final(cache)@ == old(cache)@)
                || exists|now: i64| (final(cache)@, r) == reserve_result(old(cache)@, *c, now),
        },
{
    proof {
        use_type_invariant(&*cache);
    }
    match claims {
        None => Ok(()),
        Some(_) => reserve_registration_by(claims, now_seconds(), cache),
    }
}

proof fn lemma_bytes_lt_irreflexive(a: Seq<u8>)
    ensures
        !bytes_lt(a, a),
    decreases a.len(),
{
    if a.len() > 0 {
        lemma_bytes_lt_irreflexive(a.drop_first());
    }
}

proof fn lemma_key_index_at(s: Seq<RegistrationView>, i: int)
    requires
        distinct_keys(s, registration_key()),
        0 <= i < s.len(),
    ensures
        key_index(s, s[i].role, s[i].scope, s[i].device) == Some(i),
{
    assert(has_key(s[i], s[i].role, s[i].scope, s[i].device));
    let c = choose|c: int| 0 <= c < s.len() && #[trigger] has_key(s[c], s[i].role, s[i].scope, s[i].device);
    if c != i {
        assert(registration_key()(s[c]) == registration_key()(s[i]));
    }
}

/// Every reservation keeps the cache well formed: no two registrations share
/// role, scope and device, and no more than `MAX_ACTIVE_REGISTRATIONS` are held.
pub proof fn law_reserve_keeps_well_formed(old: RegistrationCacheView, c: Claims, now: i64)
    requires
        entries_well_formed(old.entries),
    ensures
        entries_well_formed(reserve_result(old, c, now).0.entries),
{
    let live = old.entries.filter(is_live(now));
    lemma_filter_keeps_distinct(old.entries, registration_key(), is_live(now));
    let after = reserve_result(old, c, now).0.entries;
    if after != live {
        let scope = registration_scope(c).unwrap();
        let key = (c.role@, scope, c.device_public_key@);
        match key_index(live, c.role@, scope, c.device_public_key@) {
            Some(i) => {
                assert forall|a: int, b: int|
                    0 <= a < after.len() && 0 <= b < after.len() && a != b implies registration_key()(
                    #[trigger] after[a],
                ) != registration_key()(#[trigger] after[b]) by {
                    assert(registration_key()(after[a]) == registration_key()(live[a]));
                    assert(registration_key()(after[b]) == registration_key()(live[b]));
                }
            },
            None => {
                assert forall|a: int, b: int|
                    0 <= a < after.len() && 0 <= b < after.len() && a != b implies registration_key()(
                    #[trigger] after[a],
                ) != registration_key()(#[trigger] after[b]) by {
                    if a == after.len() - 1 {
                        assert(!has_key(live[b], c.role@, scope, c.device_public_key@));
                    } else if b == after.len() - 1 {
                        assert(!has_key(live[a], c.role@, scope, c.device_public_key@));
                    } else {
                        assert(after[a] == live[a] && after[b] == live[b]);
                    }
                }
            },
        }
    }
}

/// A refused reservation changes nothing but the expiry of registrations that
/// had already ended: no partial registration is left behind.
pub proof fn law_refusal_only_expires(old: RegistrationCacheView, c: Claims, now: i64)
    requires
        reserve_result(old, c, now).1 is Err,
    ensures
        reserve_result(old, c, now).0 == (RegistrationCacheView {
            entries: old.entries.filter(is_live(now)),
            next_sequence: old.next_sequence,
        }),
{
}

/// A viewer's authorization is held by one device at a time: once a viewer's
/// device is admitted, no other device is registered for that subject.
pub proof fn law_viewer_exclusive(old: RegistrationCacheView, c: Claims, now: i64)
    requires
        c.role@ == viewer_role(),
        reserve_result(old, c, now).1 is Ok,
    ensures
        forall|i: int|
            #![trigger reserve_result(old, c, now).0.entries[i]]
            0 <= i < reserve_result(old, c, now).0.entries.len()
                && reserve_result(old, c, now).0.entries[i].role == c.role@
                && reserve_result(old, c, now).0.entries[i].scope == c.sub@
                ==> reserve_result(old, c, now).0.entries[i].device == c.device_public_key@,
{
    reveal_strlit("technician");
    reveal_strlit("viewer");
    assert(technician_role() != viewer_role()) by {
        assert(technician_role()[0] != viewer_role()[0]);
    }
    let live = old.entries.filter(is_live(now));
    let after = reserve_result(old, c, now).0.entries;
    assert(!viewer_taken(live, c));
    assert forall|i: int|
        0 <= i < after.len() && after[i].role == c.role@ && after[i].scope == c.sub@ implies after[i].device
        == c.device_public_key@ by {
        match key_index(live, c.role@, c.sub@, c.device_public_key@) {
            Some(k) => {
                if i != k {
                    assert(after[i] == live[i]);
                } else {
                    assert(has_key(live[k], c.role@, c.sub@, c.device_public_key@));
                }
            },
            None => {
                if i < live.len() {
                    assert(after[i] == live[i]);
                }
            },
        }
    }
}

/// A technician's device is admitted only within its tenant's quota: after
/// an admission the device is registered, and fewer than `max_sessions`
/// devices of the tenant were registered before it.
pub proof fn law_technician_quota(old: RegistrationCacheView, c: Claims, now: i64)
    requires
        entries_well_formed(old.entries),
        c.role@ == technician_role(),
        reserve_result(old, c, now).1 is Ok,
    ensures
        ({
            let after = reserve_result(old, c, now).0.entries;
            match key_index(after, c.role@, c.tenant@, c.device_public_key@) {
                Some(i) => after.filter(
                    ahead_of(c.role@, c.tenant@, after[i].sequence, after[i].device),
                ).len() < c.max_sessions,
                None => false,
            }
        }),
{
    let live = old.entries.filter(is_live(now));
    lemma_filter_keeps_distinct(old.entries, registration_key(), is_live(now));
    law_reserve_keeps_well_formed(old, c, now);
    let after = reserve_result(old, c, now).0.entries;
    assert(!over_quota(live, c));
    match key_index(live, c.role@, c.tenant@, c.device_public_key@) {
        Some(k) => {
            assert(has_key(live[k], c.role@, c.tenant@, c.device_public_key@));
            lemma_key_index_at(after, k);
            let p = ahead_of(c.role@, c.tenant@, live[k].sequence, live[k].device);
            assert forall|j: int| 0 <= j < after.len() implies p(after[j]) == p(live[j]) by {
                if j != k {
                    assert(after[j] == live[j]);
                }
            }
            lemma_filter_len_pointwise(after, live, p);
        },
        None => {
            let n = live.len() as int;
            lemma_key_index_at(after, n);
            let p = ahead_of(c.role@, c.tenant@, old.next_sequence, c.device_public_key@);
            let q = in_group(c.role@, c.tenant@);
            assert(after =~= live.push(after[n]));
            live.lemma_filter_len_push(p, after[n]);
            lemma_bytes_lt_irreflexive(vstd::utf8::encode_utf8(c.device_public_key@));
            assert(!p(after[n]));
            lemma_filter_len_weaker(live, p, q);
        },
    }
}

/// Renewing keeps a device's place: when the device is still registered, an
/// admitted reservation adds no entry, keeps its sequence number (and so its
/// rank in the tenant's quota) and leaves the next sequence number alone.
pub proof fn law_renewal_keeps_place(old: RegistrationCacheView, c: Claims, now: i64)
    requires
        reserve_result(old, c, now).1 is Ok,
        registration_scope(c) is Some,
        key_index(
            old.entries.filter(is_live(now)),
            c.role@,
            registration_scope(c)->Some_0,
            c.device_public_key@,
        ) is Some,
    ensures
        ({
            let live = old.entries.filter(is_live(now));
            let i = key_index(live, c.role@, registration_scope(c)->Some_0, c.device_public_key@)->Some_0;
            let after = reserve_result(old, c, now).0;
            &&& after.entries.len() == live.len()
            &&& after.entries[i].sequence == live[i].sequence
            &&& after.entries[i].device == live[i].device
            &&& after.next_sequence == old.next_sequence
        }),
{
}

/// No two viewer registrations for one subject belong to different devices.
pub open spec fn viewers_exclusive(s: Seq<RegistrationView>) -> bool {
    forall|i: int, j: int|
        #![trigger s[i], s[j]]
        0 <= i < s.len() && 0 <= j < s.len() && s[i].role == viewer_role() && s[j].role
            == viewer_role() && s[i].scope == s[j].scope ==> s[i].device == s[j].device
}

proof fn lemma_filter_viewers_exclusive(s: Seq<RegistrationView>, p: spec_fn(RegistrationView) -> bool)
    requires
        viewers_exclusive(s),
    ensures
        viewers_exclusive(s.filter(p)),
{
    let f = s.filter(p);
    assert forall|a: int, b: int|
        0 <= a < f.len() && 0 <= b < f.len() && f[a].role == viewer_role() && f[b].role
            == viewer_role() && f[a].scope == f[b].scope implies #[trigger] f[a].device
        == #[trigger] f[b].device by {
        assert(f.contains(f[a]));
        assert(f.contains(f[b]));
        s.lemma_filter_contains_rev(p, f[a]);
        s.lemma_filter_contains_rev(p, f[b]);
        let i = choose|i: int| 0 <= i < s.len() && s[i] == f[a];
        let j = choose|j: int| 0 <= j < s.len() && s[j] == f[b];
        assert(s[i].device == s[j].device);
    }
}

/// A viewer's authorization is held by one device in every state the cache
/// reaches: an empty cache has this property, and every reservation, admitted
/// or refused, keeps it.
pub proof fn law_viewers_stay_exclusive(old: RegistrationCacheView, c: Claims, now: i64)
    requires
        viewers_exclusive(old.entries),
    ensures
        viewers_exclusive(reserve_result(old, c, now).0.entries),
{
    reveal_strlit("technician");
    reveal_strlit("viewer");
    assert(technician_role() != viewer_role()) by {
        assert(technician_role()[0] != viewer_role()[0]);
    }
    let live = old.entries.filter(is_live(now));
    lemma_filter_viewers_exclusive(old.entries, is_live(now));
    let after = reserve_result(old, c, now).0.entries;
    if after != live {
        let scope = registration_scope(c)->Some_0;
        match key_index(live, c.role@, scope, c.device_public_key@) {
            Some(k) => {
                assert forall|a: int, b: int|
                    0 <= a < after.len() && 0 <= b < after.len() && after[a].role == viewer_role()
                        && after[b].role == viewer_role() && after[a].scope == after[b].scope implies #[trigger] after[a].device
                    == #[trigger] after[b].device by {
                    assert(after[a].role == live[a].role && after[a].scope == live[a].scope
                        && after[a].device == live[a].device);
                    assert(after[b].role == live[b].role && after[b].scope == live[b].scope
                        && after[b].device == live[b].device);
                }
            },
            None => {
                let n = live.len() as int;
                assert forall|a: int, b: int|
                    0 <= a < after.len() && 0 <= b < after.len() && after[a].role == viewer_role()
                        && after[b].role == viewer_role() && after[a].scope == after[b].scope implies #[trigger] after[a].device
                    == #[trigger] after[b].device by {
                    if a == n && b == n {
                    } else if a == n {
                        assert(after[b] == live[b]);
                        assert(!viewer_taken(live, c));
                        assert(live[b].role == c.role@ && live[b].scope == c.sub@);
                    } else if b == n {
                        assert(after[a] == live[a]);
                        assert(!viewer_taken(live, c));
                        assert(live[a].role == c.role@ && live[a].scope == c.sub@);
                    } else {
                        assert(after[a] == live[a] && after[b] == live[b]);
                    }
                }
            },
        }
    }
}

/// A reservation as the laws see it: the claims presented and the time.
pub struct ReservationCall {
    pub claims: Claims,
    pub now: i64,
}

/// The cache after the reservations, made in order.
pub open spec fn after_reservations(c: RegistrationCacheView, calls: Seq<ReservationCall>) -> RegistrationCacheView
    decreases calls.len(),
{
    if calls.len() == 0 {
        c
    } else {
        let x = calls.last();
        reserve_result(after_reservations(c, calls.drop_last()), x.claims, x.now).0
    }
}

/// The cache that `RegistrationCache::new` and `RegistrationCache::default` give.
pub open spec fn empty_registrations() -> RegistrationCacheView {
    RegistrationCacheView { entries: Seq::empty(), next_sequence: 0 }
}

/// Any run of reservations, admitted or refused, keeps a cache bounded, keyed
/// uniquely and with each viewer's authorization on one device.
pub proof fn law_reservations_keep_bounds(start: RegistrationCacheView, calls: Seq<ReservationCall>)
    requires
        entries_well_formed(start.entries),
        viewers_exclusive(start.entries),
    ensures
        entries_well_formed(after_reservations(start, calls).entries),
        viewers_exclusive(after_reservations(start, calls).entries),
    decreases calls.len(),
{
    if calls.len() > 0 {
        law_reservations_keep_bounds(start, calls.drop_last());
        let x = calls.last();
        law_reserve_keeps_well_formed(after_reservations(start, calls.drop_last()), x.claims, x.now);
        law_viewers_stay_exclusive(after_reservations(start, calls.drop_last()), x.claims, x.now);
    }
}

/// Every cache that reservations reach from an empty one holds at most
/// `MAX_ACTIVE_REGISTRATIONS` registrations, no two with the same role, scope
/// and device, and no two viewer registrations of one subject on different
/// devices.
pub proof fn law_reachable_caches_bounded(calls: Seq<ReservationCall>)
    ensures
        after_reservations(empty_registrations(), calls).entries.len() <= MAX_ACTIVE_REGISTRATIONS,
        distinct_keys(after_reservations(empty_registrations(), calls).entries, registration_key()),
        viewers_exclusive(after_reservations(empty_registrations(), calls).entries),
{
    let e = empty_registrations();
    assert(entries_well_formed(e.entries));
    law_reservations_keep_bounds(e, calls);
}

/// A new device that passes the role, quota and viewer checks is refused as
/// `RegistrationCacheFull` exactly when `MAX_ACTIVE_REGISTRATIONS` live
/// registrations are held, and admitted otherwise.
pub proof fn law_full_cache_refuses_new_devices(old: RegistrationCacheView, c: Claims, now: i64)
    requires
        registration_scope(c) is Some,
        c.role@ == technician_role() ==> !over_quota(old.entries.filter(is_live(now)), c),
        c.role@ != technician_role() ==> !viewer_taken(old.entries.filter(is_live(now)), c),
        key_index(
            old.entries.filter(is_live(now)),
            c.role@,
            registration_scope(c)->Some_0,
            c.device_public_key@,
        ) is None,
    ensures
        reserve_result(old, c, now).1 == (if old.entries.filter(is_live(now)).len()
            >= MAX_ACTIVE_REGISTRATIONS {
            Err::<(), AuthError>(AuthError::RegistrationCacheFull)
        } else {
            Ok::<(), AuthError>(())
        }),
{
}

/// An admitted reservation at `now` leaves the device's registration ending
/// at the earlier of the token's expiry and `now` plus
/// `ACTIVE_REGISTRATION_TTL_SECONDS`, for a renewal as for a new device, and
/// changes no other registration beyond forgetting those that ended: no
/// registration outlives its last reservation by more than the time to live.
pub proof fn law_reservation_sets_expiry(old: RegistrationCacheView, c: Claims, now: i64)
    requires
        entries_well_formed(old.entries),
        reserve_result(old, c, now).1 is Ok,
    ensures
        ({
            let after = reserve_result(old, c, now).0.entries;
            let live = old.entries.filter(is_live(now));
            &&& exists|i: int|
                0 <= i < after.len() && #[trigger] has_key(
                    after[i],
                    c.role@,
                    registration_scope(c)->Some_0,
                    c.device_public_key@,
                )
            &&& forall|i: int|
                0 <= i < after.len() && #[trigger] has_key(
                    after[i],
                    c.role@,
                    registration_scope(c)->Some_0,
                    c.device_public_key@,
                ) ==> after[i].expires_at as int == (if c.exp as int
                    <= now + ACTIVE_REGISTRATION_TTL_SECONDS {
                    c.exp as int
                } else {
                    now + ACTIVE_REGISTRATION_TTL_SECONDS
                })
            &&& forall|i: int|
                0 <= i < live.len() && !#[trigger] has_key(
                    live[i],
                    c.role@,
                    registration_scope(c)->Some_0,
                    c.device_public_key@,
                ) ==> after[i] == live[i]
        }),
{
    let live = old.entries.filter(is_live(now));
    lemma_filter_keeps_distinct(old.entries, registration_key(), is_live(now));
    let after = reserve_result(old, c, now).0.entries;
    let scope = registration_scope(c)->Some_0;
    match key_index(live, c.role@, scope, c.device_public_key@) {
        Some(k) => {
            assert(has_key(live[k], c.role@, scope, c.device_public_key@));
            assert(has_key(after[k], c.role@, scope, c.device_public_key@));
            assert forall|i: int|
                0 <= i < after.len() && #[trigger] has_key(after[i], c.role@, scope, c.device_public_key@)
                    implies i == k by {
                if i != k {
                    assert(after[i] == live[i]);
                    assert(registration_key()(live[i]) == registration_key()(live[k]));
                }
            }
        },
        None => {
            let n = live.len() as int;
            assert(has_key(after[n], c.role@, scope, c.device_public_key@));
            assert forall|i: int|
                0 <= i < after.len() && #[trigger] has_key(after[i], c.role@, scope, c.device_public_key@)
                    implies i == n by {
                if i != n {
                    assert(after[i] == live[i]);
                }
            }
        },
    }
}

} // verus!
