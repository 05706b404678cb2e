//! The nonces of accepted proofs, remembered until their token expires, so
//! that a proof is accepted once.
use vstd::prelude::*;
use crate::error::AuthError;
use crate::seqs::{
    distinct_keys, lemma_filter_filter_len, lemma_filter_keeps_distinct, lemma_filter_len_pointwise,
};
use crate::text::str_eq;

verus! {

/// Most nonces remembered at once.
pub const MAX_REPLAY_ENTRIES: usize = 100_000;

/// Most nonces remembered for one device.
pub const MAX_REPLAY_ENTRIES_PER_DEVICE: usize = 512;

/// Least time between two sweeps of expired nonces, in seconds.
pub const REPLAY_CLEANUP_INTERVAL_SECONDS: i64 = 10;

/// A remembered nonce, as the contracts see it.
pub struct NonceView {
    pub device: Seq<char>,
    pub nonce: Seq<char>,
    pub expires_at: i64,
}

/// The remembered nonces, the count kept of them and the time of the last sweep.
pub struct ReplayCacheView {
    pub records: Seq<NonceView>,
    pub total_entries: usize,
    pub last_cleanup: i64,
}

/// A nonce that a device used, and when it may be forgotten.
pub struct NonceRecord {
    device_public_key: String,
    nonce: String,
    expires_at: i64,
}

impl View for NonceRecord {
    type V = NonceView;

    closed spec fn view(&self) -> NonceView {
        NonceView {
            device: self.device_public_key@,
            nonce: self.nonce@,
            expires_at: self.expires_at,
        }
    }
}

impl NonceRecord {
    fn with_expiry(&self, expires_at: i64) -> (r: NonceRecord)
        ensures
            r@ == (NonceView { expires_at, ..self@ }),
    {
        NonceRecord {
            device_public_key: self.device_public_key.clone(),
            nonce: self.nonce.clone(),
            expires_at,
        }
    }
}

/// The nonces that devices have used. Each (device, nonce) pair is held once;
/// the order of the records carries no meaning.
pub struct ReplayCache {
    records: Vec<NonceRecord>,
    total_entries: usize,
    last_cleanup: i64,
}

impl View for ReplayCache {
    type V = ReplayCacheView;

    closed spec fn view(&self) -> ReplayCacheView {
        ReplayCacheView {
            records: self.records@.map_values(|r: NonceRecord| r@),
            total_entries: self.total_entries,
            last_cleanup: self.last_cleanup,
        }
    }
}

pub open spec fn nonce_key() -> spec_fn(NonceView) -> (Seq<char>, Seq<char>) {
    |r: NonceView| (r.device, r.nonce)
}

pub open spec fn of_device(device: Seq<char>) -> spec_fn(NonceView) -> bool {
    |r: NonceView| r.device == device
}

pub open spec fn unexpired(now: i64) -> spec_fn(NonceView) -> bool {
    |r: NonceView| r.expires_at > now
}

/// Every pair is held once, the count matches the records, and neither the
/// whole cache nor any device exceeds its bound.
pub open spec fn replay_well_formed(c: ReplayCacheView) -> bool {
    &&& distinct_keys(c.records, nonce_key())
    &&& c.total_entries == c.records.len()
    &&& c.records.len() <= MAX_REPLAY_ENTRIES
    &&& forall|d: Seq<char>|
        #[trigger] c.records.filter(of_device(d)).len() <= MAX_REPLAY_ENTRIES_PER_DEVICE
}

/// Where the record of `device` and `nonce` stands, if there is one.
pub open spec fn nonce_index(s: Seq<NonceView>, device: Seq<char>, nonce: Seq<char>) -> Option<int> {
    if exists|i: int| 0 <= i < s.len() && (#[trigger] s[i]).device == device && s[i].nonce == nonce {
        Some(
            choose|i: int| 0 <= i < s.len() && (#[trigger] s[i]).device == device && s[i].nonce == nonce,
        )
    } else {
        None
    }
}

/// The cache after the sweep that `remember_nonce` makes at `now`: expired
/// nonces are forgotten when the last sweep is `REPLAY_CLEANUP_INTERVAL_SECONDS`
/// or more in the past.
pub open spec fn swept(old: ReplayCacheView, now: i64) -> ReplayCacheView {
    if now - old.last_cleanup >= REPLAY_CLEANUP_INTERVAL_SECONDS {
        ReplayCacheView {
            records: old.records.filter(unexpired(now)),
            total_entries: old.records.filter(unexpired(now)).len() as usize,
            last_cleanup: now,
        }
    } else {
        old
    }
}

/// What `remember_nonce` leaves and answers.
pub open spec fn remember_result(
    old: ReplayCacheView,
    device: Seq<char>,
    nonce: Seq<char>,
    expires_at: i64,
    now: i64,
) -> (ReplayCacheView, Result<(), AuthError>) {
    let c = swept(old, now);
    if c.total_entries >= MAX_REPLAY_ENTRIES {
        (c, Err(AuthError::ReplayCacheFull))
    } else if c.records.filter(of_device(device)).len() >= MAX_REPLAY_ENTRIES_PER_DEVICE {
        (c, Err(AuthError::DeviceReplayCacheFull))
    } else {
        match nonce_index(c.records, device, nonce) {
            Some(i) => (
                ReplayCacheView {
                    records: c.records.update(i, NonceView { expires_at, ..c.records[i] }),
                    ..c
                },
                Err(AuthError::Replayed),
            ),
            None => (
                ReplayCacheView {
                    records: c.records.push(NonceView { device, nonce, expires_at }),
                    total_entries: (c.total_entries + 1) as usize,
                    ..c
                },
                Ok(()),
            ),
        }
    }
}

impl ReplayCache {
    /// Pairs are held once, the count is right and the bounds hold in every
    /// cache.
    #[verifier::type_invariant]
    closed spec fn well_formed(&self) -> bool {
        replay_well_formed(self@)
    }

    /// An empty cache, last swept at time 0.
    pub fn new() -> (r: ReplayCache)
        ensures
            replay_well_formed(r@),
            r@.records.len() == 0,
            r@.last_cleanup == 0,
    {
        let r = ReplayCache { records: Vec::new(), total_entries: 0, last_cleanup: 0 };
        assert(r@.records =~= Seq::<NonceView>::empty());
        assert forall|d: Seq<char>| #[trigger] r@.records.filter(of_device(d)).len() <= MAX_REPLAY_ENTRIES_PER_DEVICE by {
            r@.records.lemma_filter_len(of_device(d));
        }
        r
    }

    /// The number of remembered nonces.
    pub fn len(&self) -> (r: usize)
        ensures
            r == self@.records.len(),
    {
        self.records.len()
    }

    /// Forgets the nonces that expire at or before `now`.
    fn sweep(&mut self, now: i64)
        ensures
            replay_well_formed(final(self)@),
            final(self)@.records == old(self)@.records.filter(unexpired(now)),
            final(self)@.last_cleanup == now,
    {
        proof {
            use_type_invariant(&*self);
        }
        let ghost ov = self@.records;
        let mut kept: Vec<NonceRecord> = Vec::new();
        let n = self.records.len();
        for i in 0..n
            invariant
                n == self.records.len(),
                ov == self@.records,
                replay_well_formed(self@),
                kept@.map_values(|r: NonceRecord| r@) == ov.take(i as int).filter(unexpired(now)),
                kept@.len() <= i,
        {
            proof {
                assert(ov.take(i + 1) =~= ov.take(i as int).push(ov[i as int]));
                ov.take(i as int).lemma_filter_push(ov[i as int], unexpired(now));
            }
            if self.records[i].expires_at > now {
                let ghost before = kept@.map_values(|r: NonceRecord| r@);
                let e = self.records[i].with_expiry(self.records[i].expires_at);
                kept.push(e);
                assert(kept@.map_values(|r: NonceRecord| r@) =~= before.push(ov[i as int]));
            }
        }
        proof {
            assert(ov.take(n as int) =~= ov);
            lemma_filter_keeps_distinct(ov, nonce_key(), unexpired(now));
            assert forall|d: Seq<char>|
                #[trigger] ov.filter(unexpired(now)).filter(of_device(d)).len()
                    <= MAX_REPLAY_ENTRIES_PER_DEVICE by {
                lemma_filter_filter_len(ov, unexpired(now), of_device(d));
                assert(ov.filter(of_device(d)).len() <= MAX_REPLAY_ENTRIES_PER_DEVICE);
            }
        }
        let total_entries = kept.len();
        *self = ReplayCache { records: kept, total_entries, last_cleanup: now };
    }

    /// How many nonces of `device` are remembered.
    fn count_device(&self, device: &str) -> (r: usize)
        ensures
            r == self@.records.filter(of_device(device@)).len(),
    {
        let ghost s = self@.records;
        let n = self.records.len();
        let mut count: usize = 0;
        for i in 0..n
            invariant
                n == self.records.len(),
                s == self@.records,
                count == s.take(i as int).filter(of_device(device@)).len(),
                count <= i,
        {
            proof {
                assert(s.take(i + 1) =~= s.take(i as int).push(s[i as int]));
                s.take(i as int).lemma_filter_len_push(of_device(device@), s[i as int]);
            }
            let e = &self.records[i];
            assert(e@ == s[i as int]);
            if str_eq(e.device_public_key.as_str(), device) {
                count = count + 1;
            }
        }
        assert(s.take(n as int) =~= s);
        count
    }

    /// Where the record of `device` and `nonce` stands.
    fn find(&self, device: &str, nonce: &str) -> (r: Option<usize>)
        ensures
            r matches Some(i) ==> i < self@.records.len() && nonce_index(
                self@.records,
                device@,
                nonce@,
            ) == Some(i as int),
            r is None ==> nonce_index(self@.records, device@, nonce@) is None,
    {
        proof {
            use_type_invariant(self);
        }
        let ghost s = self@.records;
        let n = self.records.len();
        for i in 0..n
            invariant
                n == self.records.len(),
                s == self@.records,
                distinct_keys(s, nonce_key()),
                forall|j: int|
                    0 <= j < i ==> !((#[trigger] s[j]).device == device@ && s[j].nonce == nonce@),
        {
            let e = &self.records[i];
            assert(e@ == s[i as int]);
            if str_eq(e.device_public_key.as_str(), device) && str_eq(e.nonce.as_str(), nonce) {
                proof {
                    assert(s[i as int].device == device@);
                    let c = choose|c: int|
                        0 <= c < s.len() && (#[trigger] s[c]).device == device@ && s[c].nonce
                            == nonce@;
                    if c != i {
                        assert(nonce_key()(s[c]) == nonce_key()(s[i as int]));
                    }
                }
                return Some(i);
            }
        }
        None
    }
}

impl Default for ReplayCache {
    fn default() -> (r: ReplayCache)
        ensures
            replay_well_formed(r@),
            r@.records.len() == 0,
            r@.last_cleanup == 0,
    {
        ReplayCache::new()
    }
}

/// Remembers that `device_public_key` used `nonce` in a proof whose token
/// expires at `expires_at`, at time `now`; refuses a nonce already
/// remembered for the device, and refuses when the cache or the device's
/// share of it is full.
pub fn remember_nonce(
    cache: &mut ReplayCache,
    device_public_key: &str,
    nonce: &str,
    expires_at: i64,
    now: i64,
) -> (r: Result<(), AuthError>)
    ensures
        replay_well_formed(final(cache)@),
        (final(cache)@, r) == remember_result(
            old(cache)@,
            device_public_key@,
            nonce@,
            expires_at,
            now,
        ),
{
    proof {
        use_type_invariant(&*cache);
        law_remember_keeps_well_formed(cache@, device_public_key@, nonce@, expires_at, now);
    }
    if (now as i128) - (cache.last_cleanup as i128) >= (REPLAY_CLEANUP_INTERVAL_SECONDS as i128) {
        cache.sweep(now);
    }
    let ghost c = cache@;
    assert(c == swept(old(cache)@, now));
    if cache.total_entries >= MAX_REPLAY_ENTRIES {
        return Err(AuthError::ReplayCacheFull);
    }
    if cache.count_device(device_public_key) >= MAX_REPLAY_ENTRIES_PER_DEVICE {
        return Err(AuthError::DeviceReplayCacheFull);
    }
    let found = cache.find(device_public_key, nonce);
    let mut taken = ReplayCache::new();
    std::mem::swap(&mut taken, cache);
    let ReplayCache { mut records, total_entries, last_cleanup } = taken;
    assert(records@.map_values(|r: NonceRecord| r@) == c.records);
    match found {
        Some(i) => {
            let updated = records[i].with_expiry(expires_at);
            records.set(i, updated);
            assert(records@.map_values(|r: NonceRecord| r@) =~= c.records.update(
                i as int,
                NonceView { expires_at, ..c.records[i as int] },
            ));
            *cache = ReplayCache { records, total_entries, last_cleanup };
            Err(AuthError::Replayed)
        },
        None => {
            records.push(
                NonceRecord {
                    device_public_key: device_public_key.to_owned(),
                    nonce: nonce.to_owned(),
                    expires_at,
                },
            );
            assert(records@.map_values(|r: NonceRecord| r@) =~= c.records.push(
                NonceView { device: device_public_key@, nonce: nonce@, expires_at },
            ));
            *cache = ReplayCache {
                records,
                total_entries: total_entries.saturating_add(1),
                last_cleanup,
            };
            Ok(())
        },
    }
}

/// Right after a nonce has been remembered for a device, presenting it again
/// for that device before its token expires is refused, whatever the expiry
/// presented and whether or not a sweep runs.
pub proof fn law_replay_refused(
    old: ReplayCacheView,
    device: Seq<char>,
    nonce: Seq<char>,
    expires_at: i64,
    now: i64,
    later_expires_at: i64,
    later: i64,
)
    requires
        remember_result(old, device, nonce, expires_at, now).1 is Ok,
        later < expires_at,
    ensures
        remember_result(
            remember_result(old, device, nonce, expires_at, now).0,
            device,
            nonce,
            later_expires_at,
            later,
        ).1 is Err,
{
    let first = remember_result(old, device, nonce, expires_at, now).0;
    let added = NonceView { device, nonce, expires_at };
    let n = first.records.len() - 1;
    assert(first.records[n] == added);
    let c2 = swept(first, later);
    assert(c2.records.contains(added)) by {
        if later - first.last_cleanup >= REPLAY_CLEANUP_INTERVAL_SECONDS {
            first.records.lemma_filter_contains(unexpired(later), n);
        } else {
            assert(c2.records[n] == added);
        }
    }
    let j = choose|j: int| 0 <= j < c2.records.len() && c2.records[j] == added;
    assert(c2.records[j].device == device && c2.records[j].nonce == nonce);
}

/// `device` has `nonce` remembered until at least `until`.
pub open spec fn remembered_until(records: Seq<NonceView>, device: Seq<char>, nonce: Seq<char>, until: i64) -> bool {
    exists|i: int|
        0 <= i < records.len() && (#[trigger] records[i]).device == device && records[i].nonce == nonce
            && records[i].expires_at >= until
}

proof fn lemma_swept_well_formed(old: ReplayCacheView, now: i64)
    requires
        replay_well_formed(old),
    ensures
        replay_well_formed(swept(old, now)),
{
    if now - old.last_cleanup >= REPLAY_CLEANUP_INTERVAL_SECONDS {
        let r = old.records;
        lemma_filter_keeps_distinct(r, nonce_key(), unexpired(now));
        assert forall|d: Seq<char>|
            #[trigger] r.filter(unexpired(now)).filter(of_device(d)).len()
                <= MAX_REPLAY_ENTRIES_PER_DEVICE by {
            lemma_filter_filter_len(r, unexpired(now), of_device(d));
            assert(r.filter(of_device(d)).len() <= MAX_REPLAY_ENTRIES_PER_DEVICE);
        }
    }
}

proof fn lemma_swept_keeps(old: ReplayCacheView, now: i64, device: Seq<char>, nonce: Seq<char>, until: i64)
    requires
        remembered_until(old.records, device, nonce, until),
        now < until,
    ensures
        remembered_until(swept(old, now).records, device, nonce, until),
{
    let k = choose|i: int|
        0 <= i < old.records.len() && (#[trigger] old.records[i]).device == device
            && old.records[i].nonce == nonce && old.records[i].expires_at >= until;
    if now - old.last_cleanup >= REPLAY_CLEANUP_INTERVAL_SECONDS {
        old.records.lemma_filter_contains(unexpired(now), k);
        let f = old.records.filter(unexpired(now));
        let j = choose|j: int| 0 <= j < f.len() && f[j] == old.records[k];
        assert(f[j].device == device);
    } else {
        assert(old.records[k].device == device);
    }
}

/// Every call of `remember_nonce` keeps the cache well formed: each pair is
/// held once, the count matches the records, and the bounds hold.
pub proof fn law_remember_keeps_well_formed(
    old: ReplayCacheView,
    device: Seq<char>,
    nonce: Seq<char>,
    expires_at: i64,
    now: i64,
)
    requires
        replay_well_formed(old),
    ensures
        replay_well_formed(remember_result(old, device, nonce, expires_at, now).0),
{
    lemma_swept_well_formed(old, now);
    let c = swept(old, now);
    let after = remember_result(old, device, nonce, expires_at, now).0;
    if after != c {
        match nonce_index(c.records, device, nonce) {
            Some(i) => {
                assert forall|a: int, b: int|
                    0 <= a < after.records.len() && 0 <= b < after.records.len() && a != b implies nonce_key()(
                    #[trigger] after.records[a],
                ) != nonce_key()(#[trigger] after.records[b]) by {
                    assert(nonce_key()(after.records[a]) == nonce_key()(c.records[a]));
                    assert(nonce_key()(after.records[b]) == nonce_key()(c.records[b]));
                }
                assert forall|d: Seq<char>|
                    #[trigger] after.records.filter(of_device(d)).len()
                        <= MAX_REPLAY_ENTRIES_PER_DEVICE by {
                    assert forall|j: int| 0 <= j < after.records.len() implies of_device(d)(
                        after.records[j],
                    ) == of_device(d)(c.records[j]) by {}
                    lemma_filter_len_pointwise(after.records, c.records, of_device(d));
                    assert(c.records.filter(of_device(d)).len() <= MAX_REPLAY_ENTRIES_PER_DEVICE);
                }
            },
            None => {
                let added = NonceView { device, nonce, expires_at };
                assert(after.records =~= c.records.push(added));
                assert forall|a: int, b: int|
                    0 <= a < after.records.len() && 0 <= b < after.records.len() && a != b implies nonce_key()(
                    #[trigger] after.records[a],
                ) != nonce_key()(#[trigger] after.records[b]) by {
                    let n = after.records.len() - 1;
                    if a == n {
                        assert(!(c.records[b].device == device && c.records[b].nonce == nonce));
                    } else if b == n {
                        assert(!(c.records[a].device == device && c.records[a].nonce == nonce));
                    } else {
                        assert(after.records[a] == c.records[a] && after.records[b] == c.records[b]);
                    }
                }
                assert forall|d: Seq<char>|
                    #[trigger] after.records.filter(of_device(d)).len()
                        <= MAX_REPLAY_ENTRIES_PER_DEVICE by {
                    c.records.lemma_filter_len_push(of_device(d), added);
                    assert(c.records.filter(of_device(d)).len() <= MAX_REPLAY_ENTRIES_PER_DEVICE);
                }
            },
        }
    }
}

/// One call of `remember_nonce` at a time before `until` refuses a call that
/// presents a pair remembered until `until`, and keeps that pair remembered
/// until `until` unless the call presents the same pair with an earlier expiry.
pub proof fn law_remembered_survives_call(
    old: ReplayCacheView,
    device: Seq<char>,
    nonce: Seq<char>,
    until: i64,
    call_device: Seq<char>,
    call_nonce: Seq<char>,
    call_expires_at: i64,
    now: i64,
)
    requires
        replay_well_formed(old),
        remembered_until(old.records, device, nonce, until),
        now < until,
    ensures
        (call_device == device && call_nonce == nonce ==> call_expires_at >= until)
            ==> remembered_until(
            remember_result(old, call_device, call_nonce, call_expires_at, now).0.records,
            device,
            nonce,
            until,
        ),
        call_device == device && call_nonce == nonce ==> remember_result(
            old,
            call_device,
            call_nonce,
            call_expires_at,
            now,
        ).1 is Err,
{
    lemma_swept_well_formed(old, now);
    lemma_swept_keeps(old, now, device, nonce, until);
    let c = swept(old, now);
    let after = remember_result(old, call_device, call_nonce, call_expires_at, now).0;
    let k = choose|i: int|
        0 <= i < c.records.len() && (#[trigger] c.records[i]).device == device
            && c.records[i].nonce == nonce && c.records[i].expires_at >= until;
    if after != c {
        match nonce_index(c.records, call_device, call_nonce) {
            Some(i) => {
                if call_device == device && call_nonce == nonce {
                    if i != k {
                        assert(nonce_key()(c.records[i]) == nonce_key()(c.records[k]));
                    }
                    assert(after.records[k].expires_at == call_expires_at);
                    assert(after.records[k].device == device);
                } else {
                    assert(i != k);
                    assert(after.records[k] == c.records[k]);
                }
            },
            None => {
                if call_device == device && call_nonce == nonce {
                    assert(c.records[k].device == call_device);
                }
                assert(after.records[k] == c.records[k]);
            },
        }
    } else {
        assert(after.records[k] == c.records[k]);
    }
}

/// A later call on the nonce cache, as the laws see it.
pub struct NonceCall {
    pub device: Seq<char>,
    pub nonce: Seq<char>,
    pub expires_at: i64,
    pub now: i64,
}

/// The cache after the calls, made in order.
pub open spec fn after_calls(c: ReplayCacheView, calls: Seq<NonceCall>) -> ReplayCacheView
    decreases calls.len(),
{
    if calls.len() == 0 {
        c
    } else {
        let x = calls.last();
        remember_result(after_calls(c, calls.drop_last()), x.device, x.nonce, x.expires_at, x.now).0
    }
}

proof fn lemma_calls_keep(
    c: ReplayCacheView,
    calls: Seq<NonceCall>,
    device: Seq<char>,
    nonce: Seq<char>,
    until: i64,
)
    requires
        replay_well_formed(c),
        remembered_until(c.records, device, nonce, until),
        forall|k: int|
            0 <= k < calls.len() ==> (#[trigger] calls[k]).now < until && (calls[k].device == device
                && calls[k].nonce == nonce ==> calls[k].expires_at >= until),
    ensures
        replay_well_formed(after_calls(c, calls)),
        remembered_until(after_calls(c, calls).records, device, nonce, until),
        forall|k: int|
            0 <= k < calls.len() && (#[trigger] calls[k]).device == device && calls[k].nonce == nonce
                ==> remember_result(
                after_calls(c, calls.take(k)),
                calls[k].device,
                calls[k].nonce,
                calls[k].expires_at,
                calls[k].now,
            ).1 is Err,
    decreases calls.len(),
{
    if calls.len() > 0 {
        let prefix = calls.drop_last();
        assert forall|k: int| 0 <= k < prefix.len() implies (#[trigger] prefix[k]).now < until && (
        prefix[k].device == device && prefix[k].nonce == nonce ==> prefix[k].expires_at >= until) by {
            assert(prefix[k] == calls[k]);
        }
        lemma_calls_keep(c, prefix, device, nonce, until);
        let p = after_calls(c, prefix);
        let x = calls.last();
        assert(x == calls[calls.len() - 1]);
        law_remember_keeps_well_formed(p, x.device, x.nonce, x.expires_at, x.now);
        law_remembered_survives_call(p, device, nonce, until, x.device, x.nonce, x.expires_at, x.now);
        assert forall|k: int|
            0 <= k < calls.len() && (#[trigger] calls[k]).device == device && calls[k].nonce == nonce
                implies remember_result(
            after_calls(c, calls.take(k)),
            calls[k].device,
            calls[k].nonce,
            calls[k].expires_at,
            calls[k].now,
        ).1 is Err by {
            if k == calls.len() - 1 {
                assert(calls.take(k) =~= prefix);
            } else {
                assert(calls.take(k) =~= prefix.take(k));
                assert(prefix[k] == calls[k]);
            }
        }
    }
}

/// A proof is accepted once: after `remember_nonce` accepts `nonce` for
/// `device` with a token expiring at `expires_at`, a later call that presents
/// the same pair before that time is refused, whatever other devices and
/// nonces come in between, as long as no earlier call for the pair stored an
/// earlier expiry; and the pair stays remembered while no call for it
/// presents an earlier expiry. A refused call stores the expiry it presents,
/// and a sweep after an earlier one may forget the pair.
pub proof fn law_accepted_once(
    old: ReplayCacheView,
    device: Seq<char>,
    nonce: Seq<char>,
    expires_at: i64,
    now: i64,
    calls: Seq<NonceCall>,
)
    requires
        replay_well_formed(old),
        remember_result(old, device, nonce, expires_at, now).1 is Ok,
    ensures
        (forall|k: int|
            0 <= k < calls.len() ==> (#[trigger] calls[k]).now < expires_at && (calls[k].device
                == device && calls[k].nonce == nonce ==> calls[k].expires_at >= expires_at))
            ==> remembered_until(
            after_calls(remember_result(old, device, nonce, expires_at, now).0, calls).records,
            device,
            nonce,
            expires_at,
        ),
        forall|k: int|
            0 <= k < calls.len() && (#[trigger] calls[k]).device == device && calls[k].nonce == nonce
                && (forall|j: int| 0 <= j <= k ==> (#[trigger] calls[j]).now < expires_at) && (forall|
                j: int,
            |
                0 <= j < k && (#[trigger] calls[j]).device == device && calls[j].nonce == nonce
                    ==> calls[j].expires_at >= expires_at) ==> remember_result(
                after_calls(remember_result(old, device, nonce, expires_at, now).0, calls.take(k)),
                calls[k].device,
                calls[k].nonce,
                calls[k].expires_at,
                calls[k].now,
            ).1 is Err,
{
    let first = remember_result(old, device, nonce, expires_at, now).0;
    law_remember_keeps_well_formed(old, device, nonce, expires_at, now);
    let n = first.records.len() - 1;
    assert(first.records[n] == NonceView { device, nonce, expires_at });
    assert(first.records[n].device == device);
    if forall|k: int|
        0 <= k < calls.len() ==> (#[trigger] calls[k]).now < expires_at && (calls[k].device == device
            && calls[k].nonce == nonce ==> calls[k].expires_at >= expires_at) {
        lemma_calls_keep(first, calls, device, nonce, expires_at);
    }
    assert forall|k: int|
        0 <= k < calls.len() && (#[trigger] calls[k]).device == device && calls[k].nonce == nonce
            && (forall|j: int| 0 <= j <= k ==> (#[trigger] calls[j]).now < expires_at) && (forall|
            j: int,
        |
            0 <= j < k && (#[trigger] calls[j]).device == device && calls[j].nonce == nonce
                ==> calls[j].expires_at >= expires_at) implies remember_result(
        after_calls(first, calls.take(k)),
        calls[k].device,
        calls[k].nonce,
        calls[k].expires_at,
        calls[k].now,
    ).1 is Err by {
        let before = calls.take(k);
        assert forall|j: int| 0 <= j < before.len() implies (#[trigger] before[j]).now < expires_at && (
        before[j].device == device && before[j].nonce == nonce ==> before[j].expires_at >= expires_at) by {
            assert(before[j] == calls[j]);
        }
        lemma_calls_keep(first, before, device, nonce, expires_at);
        law_remembered_survives_call(
            after_calls(first, before),
            device,
            nonce,
            expires_at,
            calls[k].device,
            calls[k].nonce,
            calls[k].expires_at,
            calls[k].now,
        );
    }
}

} // verus!
