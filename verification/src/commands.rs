use std::time::{Instant, SystemTime};
use vstd::prelude::*;

use crate::crypt::{
    ed25519_accepts, ed25519_key_decodes, ed25519_public_key, parse_signature_text, sign, signature_text, try_verify,
    verifies,
};
use crate::network::{
    command_evidence, command_key, command_salt, command_timestamp, replace_evidence, signed_text,
    CommandView, NetCommand,
};
use crate::settings::ACCEPTABLE_EPOCH;
use crate::text::{all_digits, decimal, digits_value, lemma_decimal_digits, push_decimal};
use crate::utils::{key_text, key_to_string, strings_view};

verus! {

/// How long a salt is remembered, in nanoseconds (two minutes).
pub const SALT_LIFETIME_NANOS: u64 = 120_000_000_000;

/// Salts are counted modulo this number, which keeps them at most 8 digits long.
pub const SALT_MODULUS: u32 = 100_000_000;

#[verifier::external_type_specification]
#[verifier::external_body]
pub struct ExInstant(Instant);

/// Calls `Instant::now`. Nothing is claimed of the result.
#[verifier::external_body]
fn instant_now() -> Instant {
    Instant::now()
}

/// Calls `Instant::elapsed` and gives the nanoseconds. Nothing is claimed of the result: it
/// depends on the clock.
#[verifier::external_body]
fn nanos_since(origin: &Instant) -> u64 {
    origin.elapsed().as_nanos() as u64
}

/// Calls `SystemTime::now` and `SystemTime::duration_since` with the Unix epoch, and gives the
/// whole seconds since the epoch, or `None` for a clock set before it. Nothing is claimed of
/// the result: it depends on the clock.
#[verifier::external_body]
fn unix_time_secs() -> Option<u64> {
    match SystemTime::now().duration_since(SystemTime::UNIX_EPOCH) {
        Ok(elapsed) => Some(elapsed.as_secs()),
        Err(_) => None,
    }
}

/// The time to stamp a new command with: seconds since the Unix epoch, or 0 where the clock
/// is set before the epoch.
fn stamp_time() -> u64 {
    match unix_time_secs() {
        Some(t) => t,
        None => 0,
    }
}

/// Calls `rand::random::<u16>`. Nothing is claimed of the result.
#[verifier::external_body]
fn random_u16() -> u16 {
    rand::random::<u16>()
}

/// A remembered salt: the key text it belongs to, the salt, and when it was entered
/// (nanoseconds on the cache's clock).
struct StoredSalt {
    key: String,
    salt: String,
    entered: u64,
}

/// A base structure for creating and managing salts
pub struct SaltCache {
    salt_counter: u32,
    stored_salts: Vec<StoredSalt>,
    origin: Instant,
}

/// What a salt cache holds: the counter of the last salt given out, and the remembered salts,
/// each (key text, salt) pair with the time it was entered.
pub struct SaltCacheView {
    pub counter: nat,
    pub salts: Map<(Seq<char>, Seq<char>), u64>,
}

spec fn salt_pair(e: StoredSalt) -> (Seq<char>, Seq<char>) {
    (e.key@, e.salt@)
}

spec fn unique_pairs(es: Seq<StoredSalt>) -> bool {
    forall|i: int, j: int|
        0 <= i < es.len() && 0 <= j < es.len() && i != j ==> salt_pair(es[i]) != salt_pair(es[j])
}

spec fn salts_map(es: Seq<StoredSalt>) -> Map<(Seq<char>, Seq<char>), u64> {
    Map::new(
        |p: (Seq<char>, Seq<char>)| exists|i: int| 0 <= i < es.len() && salt_pair(es[i]) == p,
        |p: (Seq<char>, Seq<char>)|
            es[choose|i: int| 0 <= i < es.len() && salt_pair(es[i]) == p].entered,
    )
}

/// Whether a salt entered at `entered` is still remembered at `now`: less than the lifetime
/// has passed.
pub open spec fn salt_alive(entered: u64, now: u64) -> bool {
    (now as int) - (entered as int) < SALT_LIFETIME_NANOS as int
}

/// The salts of `salts` that are still remembered at `now`.
pub open spec fn live_salts(salts: Map<(Seq<char>, Seq<char>), u64>, now: u64) -> Map<
    (Seq<char>, Seq<char>),
    u64,
> {
    Map::new(
        |p: (Seq<char>, Seq<char>)| salts.contains_key(p) && salt_alive(salts[p], now),
        |p: (Seq<char>, Seq<char>)| salts[p],
    )
}

impl View for SaltCache {
    type V = SaltCacheView;

    closed spec fn view(&self) -> SaltCacheView {
        SaltCacheView { counter: self.salt_counter as nat, salts: salts_map(self.stored_salts@) }
    }
}

proof fn lemma_salts_map_at(es: Seq<StoredSalt>, i: int)
    requires
        unique_pairs(es),
        0 <= i < es.len(),
    ensures
        salts_map(es).contains_key(salt_pair(es[i])),
        salts_map(es)[salt_pair(es[i])] == es[i].entered,
{
    let p = salt_pair(es[i]);
    assert(salts_map(es).contains_key(p));
    let j = choose|j: int| 0 <= j < es.len() && salt_pair(es[j]) == p;
    assert(j == i);
}

impl SaltCache {
    /// The cache's invariant: the counter is below the modulus and no (key, salt) pair is
    /// remembered twice.
    pub closed spec fn wf(&self) -> bool {
        &&& self.salt_counter < SALT_MODULUS
        &&& unique_pairs(self.stored_salts@)
    }

    /// An empty cache whose salt counter starts at a random 16-bit number.
    pub fn new() -> (res: Self)
        ensures
            res.wf(),
            res@.counter < 65536,
            res@.salts == Map::<(Seq<char>, Seq<char>), u64>::empty(),
    {
        let res = SaltCache {
            salt_counter: random_u16() as u32,
            stored_salts: Vec::new(),
            origin: instant_now(),
        };
        assert(salts_map(res.stored_salts@) =~= Map::<(Seq<char>, Seq<char>), u64>::empty());
        res
    }

    /// Gives you an unique (but non-random) salt
    pub fn get_salt(&mut self) -> (res: String)
        requires
            old(self).wf(),
        ensures
            final(self).wf(),
            final(self)@.counter == (old(self)@.counter + 1) % (SALT_MODULUS as nat),
            final(self)@.salts == old(self)@.salts,
            res@ == decimal(final(self)@.counter),
    {
        self.salt_counter = (self.salt_counter + 1) % SALT_MODULUS;
        let mut res = String::new();
        push_decimal(&mut res, self.salt_counter as u64);
        res
    }

    /// The time on the cache's clock: nanoseconds since the cache was made.
    pub fn now(&self) -> u64 {
        nanos_since(&self.origin)
    }

    /// cleans timed out salts from the cache
    fn cleanup(&mut self, now: u64)
        requires
            old(self).wf(),
        ensures
            final(self).wf(),
            final(self)@.counter == old(self)@.counter,
            final(self)@.salts == live_salts(old(self)@.salts, now),
    {
        let ghost es = self.stored_salts@;
        let mut kept: Vec<StoredSalt> = Vec::new();
        let ghost mut src: Seq<int> = Seq::empty();
        let mut i: usize = 0;
        while i < self.stored_salts.len()
            invariant
                i <= es.len(),
                es == self.stored_salts@,
                unique_pairs(es),
                src.len() == kept@.len(),
                forall|k: int|
                    0 <= k < kept@.len() ==> 0 <= #[trigger] src[k] < i && salt_pair(kept@[k])
                        == salt_pair(es[src[k]]) && kept@[k].entered == es[src[k]].entered,
                forall|j: int|
                    0 <= j < i && salt_alive(es[j].entered, now) ==> exists|k: int|
                        0 <= k < kept@.len() && #[trigger] salt_pair(kept@[k]) == salt_pair(
                            #[trigger] es[j],
                        ),
                forall|k: int| 0 <= k < kept@.len() ==> salt_alive(#[trigger] kept@[k].entered, now),
                unique_pairs(kept@),
            decreases es.len() - i,
        {
            let e = &self.stored_salts[i];
            if now < e.entered || now - e.entered < SALT_LIFETIME_NANOS {
                let copy = StoredSalt { key: e.key.clone(), salt: e.salt.clone(), entered: e.entered };
                assert(salt_pair(copy) == salt_pair(es[i as int]));
                proof {
                    assert forall|k: int| 0 <= k < kept@.len() implies salt_pair(kept@[k])
                        != salt_pair(copy) by {
                        assert(src[k] != i);
                    }
                }
                let ghost before = kept@;
                kept.push(copy);
                proof {
                    src = src.push(i as int);
                    assert(salt_pair(kept@[kept@.len() - 1]) == salt_pair(es[i as int]));
                    assert forall|k: int| 0 <= k < before.len() implies kept@[k] == before[k] by {}
                }
            }
            i = i + 1;
        }
        self.stored_salts = kept;
        proof {
            Self::lemma_same_map(es, now, self.stored_salts@, src);
        }
    }

    /// The index of the remembered salt with this key text and salt, if any.
    fn find_salt(&self, key: &String, salt: &String) -> (res: Option<usize>)
        ensures
            match res {
                Some(i) => i < self.stored_salts@.len() && salt_pair(self.stored_salts@[i as int])
                    == (key@, salt@),
                None => forall|i: int|
                    0 <= i < self.stored_salts@.len() ==> salt_pair(#[trigger] self.stored_salts@[i])
                        != (key@, salt@),
            },
    {
        let mut i: usize = 0;
        while i < self.stored_salts.len()
            invariant
                i <= self.stored_salts@.len(),
                forall|j: int|
                    0 <= j < i ==> salt_pair(#[trigger] self.stored_salts@[j]) != (key@, salt@),
            decreases self.stored_salts@.len() - i,
        {
            let e = &self.stored_salts[i];
            if e.key == *key && e.salt == *salt {
                return Some(i);
            }
            i = i + 1;
        }
        None
    }

    /// Enters a salt into the cache at time `now` (nanoseconds on the cache's clock): salts
    /// that are no longer alive at `now` are dropped, and the pair is remembered as entered
    /// at `now`.
    pub fn enter_salt_at(&mut self, key: &str, salt: &str, now: u64)
        requires
            old(self).wf(),
        ensures
            final(self).wf(),
            final(self)@.counter == old(self)@.counter,
            final(self)@.salts == live_salts(old(self)@.salts, now).insert((key@, salt@), now),
    {
        self.cleanup(now);
        let ghost live = self@.salts;
        let ghost es = self.stored_salts@;
        let k = String::from_str(key);
        let s = String::from_str(salt);
        let entry = StoredSalt { key: k, salt: s, entered: now };
        let ghost p = salt_pair(entry);
        match self.find_salt(&entry.key, &entry.salt) {
            Some(i) => {
                self.stored_salts.set(i, entry);
                proof {
                    let ns = self.stored_salts@;
                    assert(unique_pairs(ns)) by {
                        assert forall|a: int, b: int|
                            0 <= a < ns.len() && 0 <= b < ns.len() && a != b implies salt_pair(
                                ns[a],
                            ) != salt_pair(ns[b]) by {
                            if a != i && b != i {
                                assert(ns[a] == es[a] && ns[b] == es[b]);
                            } else if a == i {
                                assert(ns[b] == es[b]);
                            } else {
                                assert(ns[a] == es[a]);
                            }
                        }
                    }
                    Self::lemma_map_update(es, i as int, entry);
                }
            },
            None => {
                self.stored_salts.push(entry);
                proof {
                    let ns = self.stored_salts@;
                    assert(ns == es.push(entry));
                    assert(unique_pairs(ns)) by {
                        assert forall|a: int, b: int|
                            0 <= a < ns.len() && 0 <= b < ns.len() && a != b implies salt_pair(
                                ns[a],
                            ) != salt_pair(ns[b]) by {
                            if a < es.len() && b < es.len() {
                                assert(ns[a] == es[a] && ns[b] == es[b]);
                            } else if a < es.len() {
                                assert(ns[a] == es[a]);
                            } else {
                                assert(ns[b] == es[b]);
                            }
                        }
                    }
                    Self::lemma_map_push(es, entry);
                }
            },
        }
    }

    proof fn lemma_map_update(es: Seq<StoredSalt>, i: int, e: StoredSalt)
        requires
            unique_pairs(es),
            unique_pairs(es.update(i, e)),
            0 <= i < es.len(),
            salt_pair(es[i]) == salt_pair(e),
        ensures
            salts_map(es.update(i, e)) == salts_map(es).insert(salt_pair(e), e.entered),
    {
        let ns = es.update(i, e);
        let m = salts_map(ns);
        let l = salts_map(es).insert(salt_pair(e), e.entered);
        assert forall|p: (Seq<char>, Seq<char>)| #[trigger] m.dom().contains(p) implies l.dom().contains(p)
            && m[p] == l[p] by {
            if p == salt_pair(e) {
                assert(ns[i] == e);
                lemma_salts_map_at(ns, i);
                assert(l[p] == e.entered);
            } else {
                let k = choose|k: int| 0 <= k < ns.len() && salt_pair(ns[k]) == p;
                assert(k != i);
                assert(ns[k] == es[k]);
                lemma_salts_map_at(ns, k);
                lemma_salts_map_at(es, k);
                assert(l[p] == salts_map(es)[p]);
            }
        }
        assert forall|p: (Seq<char>, Seq<char>)| #[trigger] l.dom().contains(p) implies m.dom().contains(p) by {
            if p == salt_pair(e) {
                lemma_salts_map_at(ns, i);
            } else {
                let k = choose|k: int| 0 <= k < es.len() && salt_pair(es[k]) == p;
                assert(k != i);
                assert(ns[k] == es[k]);
                lemma_salts_map_at(ns, k);
            }
        }
        assert(m =~= l);
    }

    proof fn lemma_map_push(es: Seq<StoredSalt>, e: StoredSalt)
        requires
            unique_pairs(es),
            unique_pairs(es.push(e)),
        ensures
            salts_map(es.push(e)) == salts_map(es).insert(salt_pair(e), e.entered),
    {
        let ns = es.push(e);
        let m = salts_map(ns);
        let l = salts_map(es).insert(salt_pair(e), e.entered);
        assert forall|p: (Seq<char>, Seq<char>)| #[trigger] m.dom().contains(p) implies l.dom().contains(p)
            && m[p] == l[p] by {
            let k = choose|k: int| 0 <= k < ns.len() && salt_pair(ns[k]) == p;
            lemma_salts_map_at(ns, k);
            assert(ns[es.len() as int] == e);
            if k < es.len() {
                assert(ns[k] == es[k]);
                assert(salt_pair(ns[k]) != salt_pair(ns[es.len() as int]));
                lemma_salts_map_at(es, k);
            }
        }
        assert forall|p: (Seq<char>, Seq<char>)| #[trigger] l.dom().contains(p) implies m.dom().contains(p) by {
            if p == salt_pair(e) {
                lemma_salts_map_at(ns, es.len() as int);
            } else {
                let k = choose|k: int| 0 <= k < es.len() && salt_pair(es[k]) == p;
                assert(ns[k] == es[k]);
                lemma_salts_map_at(ns, k);
            }
        }
        assert(m =~= l);
    }

    /// Checks at time `now` whether or not a salt is in the cache: salts that are no longer
    /// alive at `now` are dropped first.
    pub fn check_salt_at(&mut self, key: &str, salt: &str, now: u64) -> (res: bool)
        requires
            old(self).wf(),
        ensures
            final(self).wf(),
            final(self)@.counter == old(self)@.counter,
            final(self)@.salts == live_salts(old(self)@.salts, now),
            res == final(self)@.salts.contains_key((key@, salt@)),
    {
        self.cleanup(now);
        let k = String::from_str(key);
        let s = String::from_str(salt);
        match self.find_salt(&k, &s) {
            Some(i) => {
                proof {
                    lemma_salts_map_at(self.stored_salts@, i as int);
                }
                true
            },
            None => {
                proof {
                    if self@.salts.contains_key((key@, salt@)) {
                        let j = choose|j: int|
                            0 <= j < self.stored_salts@.len() && salt_pair(self.stored_salts@[j])
                                == (key@, salt@);
                        assert(salt_pair(self.stored_salts@[j]) != (key@, salt@));
                    }
                }
                false
            },
        }
    }

    /// Enters a salt into the cache
    ///
    /// Reads the cache's clock once and does `enter_salt_at` at that time.
    pub fn enter_salt(&mut self, key: &str, salt: &str)
        requires
            old(self).wf(),
        ensures
            final(self).wf(),
            final(self)@.counter == old(self)@.counter,
            exists|now: u64|
                final(self)@.salts == live_salts(old(self)@.salts, now).insert((key@, salt@), now),
    {
        let now = self.now();
        self.enter_salt_at(key, salt, now);
    }

    /// Checks whether or not a salt is in the cache
    ///
    /// Reads the cache's clock once and does `check_salt_at` at that time.
    pub fn check_salt(&mut self, key: &str, salt: &str) -> (res: bool)
        requires
            old(self).wf(),
        ensures
            final(self).wf(),
            final(self)@.counter == old(self)@.counter,
            exists|now: u64| final(self)@.salts == live_salts(old(self)@.salts, now),
            res == final(self)@.salts.contains_key((key@, salt@)),
    {
        let now = self.now();
        self.check_salt_at(key, salt, now)
    }

    proof fn lemma_same_map(es: Seq<StoredSalt>, now: u64, kept: Seq<StoredSalt>, src: Seq<int>)
        requires
            unique_pairs(es),
            unique_pairs(kept),
            src.len() == kept.len(),
            forall|k: int|
                0 <= k < kept.len() ==> 0 <= #[trigger] src[k] < es.len() && salt_pair(kept[k])
                    == salt_pair(es[src[k]]) && kept[k].entered == es[src[k]].entered,
            forall|j: int|
                0 <= j < es.len() && salt_alive(es[j].entered, now) ==> exists|k: int|
                    0 <= k < kept.len() && #[trigger] salt_pair(kept[k]) == salt_pair(
                        #[trigger] es[j],
                    ),
            forall|k: int| 0 <= k < kept.len() ==> salt_alive(#[trigger] kept[k].entered, now),
        ensures
            salts_map(kept) == live_salts(salts_map(es), now),
    {
        {
            let m = salts_map(kept);
            let l = live_salts(salts_map(es), now);
            assert forall|p: (Seq<char>, Seq<char>)| #[trigger] m.dom().contains(p) implies l.dom().contains(p) && m[p] == l[p] by {
                let k = choose|k: int| 0 <= k < kept.len() && salt_pair(
                    kept[k],
                ) == p;
                lemma_salts_map_at(kept, k);
                lemma_salts_map_at(es, src[k]);
            }
            assert forall|p: (Seq<char>, Seq<char>)| #[trigger] l.dom().contains(p) implies m.dom().contains(p) by {
                let j = choose|j: int| 0 <= j < es.len() && salt_pair(es[j]) == p;
                lemma_salts_map_at(es, j);
                assert(salt_alive(es[j].entered, now));
                let k = choose|k: int|
                    0 <= k < kept.len() && #[trigger] salt_pair(
                        kept[k],
                    ) == salt_pair(es[j]);
                assert(0 <= k < kept.len() && salt_pair(kept[k]) == p);
                assert(m.contains_key(p));
            }
            assert(m.dom() =~= l.dom());
            assert(m =~= l);
        }
    }
}


/// The command that a draft becomes once its evidence is the signature, by the private key, of
/// its text up to the evidence field.
pub open spec fn signed_command(draft: CommandView, private_key: Seq<u8>) -> CommandView {
    replace_evidence(draft, signature_text(private_key, signed_text(draft)))
}

proof fn lemma_signed_text_replace(c: CommandView, evidence: Seq<char>)
    ensures
        signed_text(replace_evidence(c, evidence)) == signed_text(c),
{
    assert(crate::network::command_fields(replace_evidence(c, evidence)).drop_last()
        =~= crate::network::command_fields(c).drop_last());
}

/// Signs a draft command: its evidence becomes the signature of its text up to the evidence
/// field. The result's evidence always reads as a signature; when the public key is the one
/// of the private key, the evidence is accepted.
fn sign_command(draft: NetCommand, private_key: &[u8; 32]) -> (res: NetCommand)
    ensures
        res@ == signed_command(draft@, private_key@),
        parse_signature_text(command_evidence(res@)) is Some,
        ed25519_key_decodes(command_key(draft@)) && command_key(draft@) == ed25519_public_key(
            private_key@,
        ) ==> evidence_accepted(res@),
{
    let text = draft.signed_text();
    let evidence = sign(private_key, text.as_str());
    let res = draft.with_evidence(evidence);
    proof {
        lemma_signed_text_replace(draft@, evidence@);
    }
    res
}

/// A JOIN command at the given time, signed with the private key.
pub fn join_at(
    username: &str,
    public_key: [u8; 32],
    private_key: [u8; 32],
    salt: &str,
    timestamp: u64,
) -> (res: NetCommand)
    ensures
        res@ == signed_command(
            CommandView::Join {
                username: username@,
                public_key: public_key@,
                timestamp,
                salt: salt@,
                evidence: Seq::empty(),
            },
            private_key@,
        ),
        parse_signature_text(command_evidence(res@)) is Some,
        ed25519_key_decodes(public_key@) && public_key@ == ed25519_public_key(private_key@)
            ==> evidence_accepted(res@),
{
    let draft = NetCommand::Join {
        username: String::from_str(username),
        public_key,
        timestamp,
        salt: String::from_str(salt),
        evidence: String::new(),
    };
    sign_command(draft, &private_key)
}

/// A LEAVE command at the given time, signed with the private key.
pub fn leave_at(
    username: &str,
    public_key: [u8; 32],
    private_key: [u8; 32],
    salt: &str,
    timestamp: u64,
) -> (res: NetCommand)
    ensures
        res@ == signed_command(
            CommandView::Leave {
                username: username@,
                public_key: public_key@,
                timestamp,
                salt: salt@,
                evidence: Seq::empty(),
            },
            private_key@,
        ),
        parse_signature_text(command_evidence(res@)) is Some,
        ed25519_key_decodes(public_key@) && public_key@ == ed25519_public_key(private_key@)
            ==> evidence_accepted(res@),
{
    let draft = NetCommand::Leave {
        username: String::from_str(username),
        public_key,
        timestamp,
        salt: String::from_str(salt),
        evidence: String::new(),
    };
    sign_command(draft, &private_key)
}

/// A MSG command at the given time, signed with the private key.
pub fn message_at(
    username: &str,
    public_key: [u8; 32],
    private_key: [u8; 32],
    content: &str,
    tags: Vec<String>,
    salt: &str,
    timestamp: u64,
) -> (res: NetCommand)
    ensures
        res@ == signed_command(
            CommandView::Message {
                username: username@,
                public_key: public_key@,
                timestamp,
                content: content@,
                tags: strings_view(tags@),
                salt: salt@,
                evidence: Seq::empty(),
            },
            private_key@,
        ),
        parse_signature_text(command_evidence(res@)) is Some,
        ed25519_key_decodes(public_key@) && public_key@ == ed25519_public_key(private_key@)
            ==> evidence_accepted(res@),
{
    let draft = NetCommand::Message {
        username: String::from_str(username),
        public_key,
        timestamp,
        content: String::from_str(content),
        tags,
        salt: String::from_str(salt),
        evidence: String::new(),
    };
    sign_command(draft, &private_key)
}

/// Generates a JOIN command based on given arguments
///
/// Sets the epoch as the generation time, so don't hold onto it.
/// A clock set before the Unix epoch stamps it 0.
pub fn join(username: &str, public_key: [u8; 32], private_key: [u8; 32], salt: &str) -> (res:
    NetCommand)
    ensures
        res@ == signed_command(
            CommandView::Join {
                username: username@,
                public_key: public_key@,
                timestamp: command_timestamp(res@),
                salt: salt@,
                evidence: Seq::empty(),
            },
            private_key@,
        ),
        parse_signature_text(command_evidence(res@)) is Some,
        ed25519_key_decodes(public_key@) && public_key@ == ed25519_public_key(private_key@)
            ==> evidence_accepted(res@),
{
    let timestamp = stamp_time();
    join_at(username, public_key, private_key, salt, timestamp)
}

/// Generates a LEAVE command based on given arguments
///
/// Sets the epoch as the generation time, so don't hold onto it.
/// A clock set before the Unix epoch stamps it 0.
pub fn leave(username: &str, public_key: [u8; 32], private_key: [u8; 32], salt: &str) -> (res:
    NetCommand)
    ensures
        res@ == signed_command(
            CommandView::Leave {
                username: username@,
                public_key: public_key@,
                timestamp: command_timestamp(res@),
                salt: salt@,
                evidence: Seq::empty(),
            },
            private_key@,
        ),
        parse_signature_text(command_evidence(res@)) is Some,
        ed25519_key_decodes(public_key@) && public_key@ == ed25519_public_key(private_key@)
            ==> evidence_accepted(res@),
{
    let timestamp = stamp_time();
    leave_at(username, public_key, private_key, salt, timestamp)
}

/// Generates a MSG command based on given arguments
///
/// Sets the epoch as the generation time, so don't hold onto it.
/// A clock set before the Unix epoch stamps it 0.
pub fn message(
    username: &str,
    public_key: [u8; 32],
    private_key: [u8; 32],
    content: &str,
    tags: Vec<String>,
    salt: &str,
) -> (res: NetCommand)
    ensures
        res@ == signed_command(
            CommandView::Message {
                username: username@,
                public_key: public_key@,
                timestamp: command_timestamp(res@),
                content: content@,
                tags: strings_view(tags@),
                salt: salt@,
                evidence: Seq::empty(),
            },
            private_key@,
        ),
        parse_signature_text(command_evidence(res@)) is Some,
        ed25519_key_decodes(public_key@) && public_key@ == ed25519_public_key(private_key@)
            ==> evidence_accepted(res@),
{
    let timestamp = stamp_time();
    message_at(username, public_key, private_key, content, tags, salt, timestamp)
}

/// Whether a command stamped at `timestamp` lies outside the acceptable epoch around `now`
/// (seconds since the Unix epoch): more than `ACCEPTABLE_EPOCH` before `now`, or more than
/// `ACCEPTABLE_EPOCH` after it.
pub open spec fn outside_epoch(now: u64, timestamp: u64) -> bool {
    timestamp + ACCEPTABLE_EPOCH < now || timestamp > now + ACCEPTABLE_EPOCH
}

/// The pair under which a command's salt is remembered: its key's text and its salt.
pub open spec fn command_salt_pair(c: CommandView) -> (Seq<char>, Seq<char>) {
    (key_text(command_key(c)), command_salt(c))
}

/// Whether a command's key and evidence can be read by the signature check: the evidence is
/// empty, or the key decodes and the evidence is the text of a signature.
pub open spec fn evidence_readable(c: CommandView) -> bool {
    command_evidence(c).len() == 0 || (ed25519_key_decodes(command_key(c)) && parse_signature_text(
        command_evidence(c),
    ) is Some)
}

/// Whether a command's evidence is accepted: it can be read, and its key accepts it as the
/// signature of the command's text up to the evidence field.
pub open spec fn evidence_accepted(c: CommandView) -> bool {
    evidence_readable(c) && verifies(command_key(c), command_evidence(c), signed_text(c))
}

/// Whether checking a command reaches its signature: it lies inside the acceptable epoch and
/// its salt is not remembered once the dead salts are dropped at `check_time`.
pub open spec fn reaches_signature_check(
    c: CommandView,
    salts: Map<(Seq<char>, Seq<char>), u64>,
    now: u64,
    check_time: u64,
) -> bool {
    !outside_epoch(now, command_timestamp(c)) && !live_salts(salts, check_time).contains_key(
        command_salt_pair(c),
    )
}

/// The verdict on a command and the salts remembered afterwards. A command is refused if it
/// lies outside the acceptable epoch, or if its salt is remembered at `check_time`; it is then
/// accepted exactly when its evidence is, and only an accepted command has its salt entered,
/// at `enter_time`.
pub open spec fn verify_outcome(
    c: CommandView,
    salts: Map<(Seq<char>, Seq<char>), u64>,
    now: u64,
    check_time: u64,
    enter_time: u64,
) -> (bool, Map<(Seq<char>, Seq<char>), u64>) {
    let pair = command_salt_pair(c);
    let checked = live_salts(salts, check_time);
    if outside_epoch(now, command_timestamp(c)) {
        (false, salts)
    } else if checked.contains_key(pair) {
        (false, checked)
    } else if evidence_accepted(c) {
        (true, live_salts(checked, enter_time).insert(pair, enter_time))
    } else {
        (false, checked)
    }
}

/// Verifies a command at the given times: `now` in seconds since the Unix epoch, and the times
/// on the cache's clock at which its salt is checked and entered (see `verify_outcome`).
pub fn verify_at(
    command: &NetCommand,
    salt_cache: &mut SaltCache,
    now: u64,
    check_time: u64,
    enter_time: u64,
) -> (res: bool)
    requires
        old(salt_cache).wf(),
    ensures
        final(salt_cache).wf(),
        final(salt_cache)@.counter == old(salt_cache)@.counter,
        (res, final(salt_cache)@.salts) == verify_outcome(
            command@,
            old(salt_cache)@.salts,
            now,
            check_time,
            enter_time,
        ),
{
    // Verify epoch
    let timestamp = command.timestamp();
    if (now >= ACCEPTABLE_EPOCH && now - ACCEPTABLE_EPOCH > timestamp) || (timestamp > now
        && timestamp - now > ACCEPTABLE_EPOCH) {
        return false;
    }
    // Verify salt
    let key = key_to_string(command.public_key().as_slice());
    if salt_cache.check_salt_at(key.as_str(), command.salt().as_str(), check_time) {
        return false;
    }
    // Verify evidence
    let expected = command.signed_text();
    let evidence = command.evidence();
    let accepted = match try_verify(command.public_key(), evidence.as_str(), expected.as_str()) {
        Some(b) => b,
        None => false,
    };
    if accepted {
        // Salt is cached here so that it has to pass the evidence check first
        salt_cache.enter_salt_at(key.as_str(), command.salt().as_str(), enter_time);
    }
    accepted
}

/// Verifies that a command is valid
///
/// Returns false on invalid, true on valid. Reads the system clock for `now` (a clock set
/// before the Unix epoch accepts nothing) and the cache's clock for the times at which the salt
/// is checked and entered.
pub fn verify(command: &NetCommand, salt_cache: &mut SaltCache) -> (res: bool)
    requires
        old(salt_cache).wf(),
    ensures
        final(salt_cache).wf(),
        final(salt_cache)@.counter == old(salt_cache)@.counter,
        exists|now: u64, check_time: u64, enter_time: u64|
            (res, final(salt_cache)@.salts) == verify_outcome(
                command@,
                old(salt_cache)@.salts,
                now,
                check_time,
                enter_time,
            ),
        res ==> evidence_accepted(command@),
{
    let now = match unix_time_secs() {
        Some(t) => t,
        None => {
            // A clock set before the Unix epoch accepts nothing.
            proof {
                let t = command_timestamp(command@);
                let witness: u64 = if t > ACCEPTABLE_EPOCH {
                    0
                } else {
                    u64::MAX
                };
                assert(outside_epoch(witness, t));
                assert((false, salt_cache@.salts) == verify_outcome(
                    command@,
                    salt_cache@.salts,
                    witness,
                    0,
                    0,
                ));
            }
            return false;
        },
    };
    let check_time = salt_cache.now();
    let enter_time = salt_cache.now();
    verify_at(command, salt_cache, now, check_time, enter_time)
}

/// The verdict on a received command, stated from its fields: it is accepted exactly when its
/// timestamp lies within `ACCEPTABLE_EPOCH` seconds of `now` either way, no salt with its own
/// key's text and its salt was entered less than the salt lifetime before `check_time`, and its
/// evidence is a signature that its key decodes and accepts on its signed text. An accepted
/// command's (key text, salt) is then remembered as entered at `enter_time`, beside the salts
/// still alive at both times; a refused command adds no salt and changes no entry time.
pub proof fn lemma_verify_verdict(
    c: CommandView,
    salts: Map<(Seq<char>, Seq<char>), u64>,
    now: u64,
    check_time: u64,
    enter_time: u64,
)
    ensures
        ({
            let pair = (key_text(command_key(c)), command_salt(c));
            let ts = command_timestamp(c) as int;
            let inside = now as int <= ts + ACCEPTABLE_EPOCH as int && ts <= now as int
                + ACCEPTABLE_EPOCH as int;
            let fresh = !(salts.contains_key(pair) && (check_time as int) - (salts[pair] as int)
                < SALT_LIFETIME_NANOS as int);
            let evidence = command_evidence(c);
            let signed = evidence.len() > 0 && ed25519_key_decodes(command_key(c))
                && parse_signature_text(evidence) is Some && ed25519_accepts(
                command_key(c),
                vstd::utf8::encode_utf8(signed_text(c)),
                parse_signature_text(evidence)->0,
            );
            let (accepted, after) = verify_outcome(c, salts, now, check_time, enter_time);
            &&& accepted == (inside && fresh && signed)
            &&& accepted ==> after.contains_key(pair) && after[pair] == enter_time
            &&& accepted ==> forall|p: (Seq<char>, Seq<char>)|
                p != pair ==> (after.contains_key(p) == (salts.contains_key(p) && (check_time as int)
                    - (salts[p] as int) < SALT_LIFETIME_NANOS as int && (enter_time as int)
                    - (salts[p] as int) < SALT_LIFETIME_NANOS as int)) && (after.contains_key(p)
                    ==> after[p] == salts[p])
            &&& !accepted ==> forall|p: (Seq<char>, Seq<char>)|
                after.contains_key(p) ==> salts.contains_key(p) && after[p] == salts[p]
        }),
{
}

/// Salts are scoped to each public key: when two commands with different 32-byte keys would
/// each be accepted on the same salts, accepting the first never makes the second refused, even
/// with the same salt and at the same times.
pub proof fn lemma_salts_scoped_per_key(
    first: CommandView,
    second: CommandView,
    salts: Map<(Seq<char>, Seq<char>), u64>,
    now: u64,
    check_time: u64,
    enter_time: u64,
    later_now: u64,
    later_check_time: u64,
    later_enter_time: u64,
)
    requires
        command_key(first).len() == 32,
        command_key(second).len() == 32,
        command_key(first) != command_key(second),
        verify_outcome(first, salts, now, check_time, enter_time).0,
        verify_outcome(second, salts, later_now, later_check_time, later_enter_time).0,
    ensures
        verify_outcome(
            second,
            verify_outcome(first, salts, now, check_time, enter_time).1,
            later_now,
            later_check_time,
            later_enter_time,
        ).0,
{
    let after = verify_outcome(first, salts, now, check_time, enter_time).1;
    lemma_verify_verdict(first, salts, now, check_time, enter_time);
    lemma_verify_verdict(second, salts, later_now, later_check_time, later_enter_time);
    lemma_verify_verdict(second, after, later_now, later_check_time, later_enter_time);
    crate::utils::lemma_key_roundtrip(command_key(first));
    crate::utils::lemma_key_roundtrip(command_key(second));
    let p1 = (key_text(command_key(first)), command_salt(first));
    let p2 = (key_text(command_key(second)), command_salt(second));
    assert(p1 != p2);
}

/// A command with accepted evidence, inside the acceptable epoch and whose salt is not remembered, is accepted,
/// and its salt is then remembered as entered at `enter_time`.
pub proof fn lemma_fresh_command_accepted(
    c: CommandView,
    salts: Map<(Seq<char>, Seq<char>), u64>,
    now: u64,
    check_time: u64,
    enter_time: u64,
)
    requires
        evidence_accepted(c),
        reaches_signature_check(c, salts, now, check_time),
    ensures
        verify_outcome(c, salts, now, check_time, enter_time) == (
            true,
            live_salts(live_salts(salts, check_time), enter_time).insert(
                command_salt_pair(c),
                enter_time,
            ),
        ),
{
}

/// A command that was accepted is refused when it comes again while its salt is alive: a
/// repeat is ignored.
pub proof fn lemma_replay_refused(
    c: CommandView,
    salts: Map<(Seq<char>, Seq<char>), u64>,
    now: u64,
    check_time: u64,
    enter_time: u64,
    later_now: u64,
    later_check_time: u64,
    later_enter_time: u64,
)
    requires
        verify_outcome(c, salts, now, check_time, enter_time).0,
        salt_alive(enter_time, later_check_time),
    ensures
        !verify_outcome(
            c,
            verify_outcome(c, salts, now, check_time, enter_time).1,
            later_now,
            later_check_time,
            later_enter_time,
        ).0,
{
    let after = verify_outcome(c, salts, now, check_time, enter_time).1;
    let pair = command_salt_pair(c);
    assert(after.contains_key(pair) && after[pair] == enter_time);
    assert(live_salts(after, later_check_time).contains_key(pair));
}

/// A salt entered at `entered` is found by a check at `checked` while it is alive, and is
/// forgotten once it is not: what `enter_salt_at` and then `check_salt_at` give.
pub proof fn lemma_entered_salt_checked(
    salts: Map<(Seq<char>, Seq<char>), u64>,
    key: Seq<char>,
    salt: Seq<char>,
    entered: u64,
    checked: u64,
)
    ensures
        live_salts(live_salts(salts, entered).insert((key, salt), entered), checked).contains_key(
            (key, salt),
        ) == salt_alive(entered, checked),
{
}

/// One call on a salt cache's salts: `enter_salt_at` (when `enter`) or `check_salt_at` of the
/// pair (`key`, `salt`) at `time` on the cache's clock.
pub struct SaltCall {
    pub enter: bool,
    pub key: Seq<char>,
    pub salt: Seq<char>,
    pub time: u64,
}

/// The salts remembered after a history of calls, starting from `salts`: each call drops the
/// salts dead at its time, and an enter then remembers its pair at that time (the `ensures` of
/// `enter_salt_at` and `check_salt_at`).
pub open spec fn salts_after(
    salts: Map<(Seq<char>, Seq<char>), u64>,
    calls: Seq<SaltCall>,
) -> Map<(Seq<char>, Seq<char>), u64>
    decreases calls.len(),
{
    if calls.len() == 0 {
        salts
    } else {
        let before = salts_after(salts, calls.drop_last());
        let call = calls.last();
        if call.enter {
            live_salts(before, call.time).insert((call.key, call.salt), call.time)
        } else {
            live_salts(before, call.time)
        }
    }
}

/// Whether the calls of a history come in clock order, none later than `now`.
pub open spec fn calls_in_order(calls: Seq<SaltCall>, now: u64) -> bool {
    &&& forall|i: int, j: int| 0 <= i < j < calls.len() ==> calls[i].time <= calls[j].time
    &&& forall|i: int| 0 <= i < calls.len() ==> calls[i].time <= now
}

/// Whether some call of a history entered the pair (`key`, `salt`) less than the salt lifetime
/// before `now`.
pub open spec fn entered_recently(calls: Seq<SaltCall>, key: Seq<char>, salt: Seq<char>, now: u64) -> bool {
    exists|i: int|
        0 <= i < calls.len() && #[trigger] calls[i].enter && calls[i].key == key && calls[i].salt == salt
            && salt_alive(calls[i].time, now)
}

/// Salts are remembered per key for the salt lifetime: after any history of enters and checks
/// on a new cache, in clock order, a check at `now` finds the pair (`key`, `salt`) exactly when
/// that very pair was entered less than the lifetime before `now`. A salt entered under one key
/// is never found under another.
pub proof fn lemma_salt_history(calls: Seq<SaltCall>, key: Seq<char>, salt: Seq<char>, now: u64)
    requires
        calls_in_order(calls, now),
    ensures
        live_salts(salts_after(Map::empty(), calls), now).contains_key((key, salt))
            == entered_recently(calls, key, salt, now),
    decreases calls.len(),
{
    if calls.len() > 0 {
        let rest = calls.drop_last();
        let call = calls.last();
        let last = calls.len() - 1;
        assert(calls_in_order(rest, now)) by {
            assert forall|i: int, j: int| 0 <= i < j < rest.len() implies rest[i].time
                <= rest[j].time by {
                assert(rest[i] == calls[i] && rest[j] == calls[j]);
            }
            assert forall|i: int| 0 <= i < rest.len() implies rest[i].time <= now by {
                assert(rest[i] == calls[i]);
            }
        }
        lemma_salt_history(rest, key, salt, now);
        if call.enter && call.key == key && call.salt == salt {
            if salt_alive(call.time, now) {
                assert(calls[last].enter);
            } else {
                assert forall|i: int|
                    0 <= i < calls.len() && #[trigger] calls[i].enter && calls[i].key == key
                        && calls[i].salt == salt implies !salt_alive(calls[i].time, now) by {
                    if i < last {
                        assert(calls[i].time <= calls[last].time);
                    }
                }
            }
        } else {
            if entered_recently(rest, key, salt, now) {
                let i = choose|i: int|
                    0 <= i < rest.len() && #[trigger] rest[i].enter && rest[i].key == key
                        && rest[i].salt == salt && salt_alive(rest[i].time, now);
                assert(calls[i] == rest[i]);
            }
            if entered_recently(calls, key, salt, now) {
                let i = choose|i: int|
                    0 <= i < calls.len() && #[trigger] calls[i].enter && calls[i].key == key
                        && calls[i].salt == salt && salt_alive(calls[i].time, now);
                assert(i != last);
                assert(rest[i] == calls[i]);
            }
        }
    }
}

/// Two different values of the salt counter give different salts.
pub proof fn lemma_decimal_injective(a: nat, b: nat)
    requires
        decimal(a) == decimal(b),
    ensures
        a == b,
{
    lemma_decimal_digits(a);
    lemma_decimal_digits(b);
}

/// The salt counter after `n` more salts were given out, starting from `counter`.
pub open spec fn counter_after(counter: nat, n: nat) -> nat {
    (counter + n) % (SALT_MODULUS as nat)
}

/// Giving out one more salt moves the counter one step on.
pub proof fn lemma_counter_step(counter: nat, n: nat)
    ensures
        (counter_after(counter, n) + 1) % (SALT_MODULUS as nat) == counter_after(counter, n + 1),
{
    let m = SALT_MODULUS as nat;
    assert(((counter + n) % m + 1) % m == (counter + n + 1) % m) by (nonlinear_arith)
        requires
            m == 100_000_000,
    {
        vstd::arithmetic::div_mod::lemma_add_mod_noop((counter + n) as int, 1, m as int);
        vstd::arithmetic::div_mod::lemma_small_mod(1, m);
    }
}

/// Salts given out fewer than `SALT_MODULUS` apart differ: among any `SALT_MODULUS`
/// successive salts, no two are the same.
pub proof fn lemma_salts_distinct(counter: nat, i: nat, j: nat)
    requires
        i < j,
        j - i < SALT_MODULUS,
    ensures
        decimal(counter_after(counter, i)) != decimal(counter_after(counter, j)),
{
    let m = SALT_MODULUS as nat;
    if decimal(counter_after(counter, i)) == decimal(counter_after(counter, j)) {
        lemma_decimal_injective(counter_after(counter, i), counter_after(counter, j));
        assert(false) by (nonlinear_arith)
            requires
                (counter + i) % m == (counter + j) % m,
                i < j,
                j - i < m,
                m == 100_000_000,
        {
            vstd::arithmetic::div_mod::lemma_fundamental_div_mod((counter + i) as int, m as int);
            vstd::arithmetic::div_mod::lemma_fundamental_div_mod((counter + j) as int, m as int);
        }
    }
}

/// Whether `counters` and `salts` are what a run of successive `get_salt` calls gives: the
/// cache's counter before the first call and after each call, and each call's salt.
pub open spec fn salt_run(counters: Seq<nat>, salts: Seq<Seq<char>>) -> bool {
    &&& counters.len() == salts.len() + 1
    &&& counters[0] < SALT_MODULUS
    &&& forall|k: int|
        0 <= k < salts.len() ==> counters[k + 1] == (counters[k] + 1) % (SALT_MODULUS as nat)
            && #[trigger] salts[k] == decimal(counters[k + 1])
}

proof fn lemma_salt_run_counter(counters: Seq<nat>, salts: Seq<Seq<char>>, k: int)
    requires
        salt_run(counters, salts),
        0 <= k < counters.len(),
    ensures
        counters[k] == counter_after(counters[0], k as nat),
    decreases k,
{
    if k == 0 {
        vstd::arithmetic::div_mod::lemma_small_mod(counters[0], SALT_MODULUS as nat);
    } else {
        lemma_salt_run_counter(counters, salts, k - 1);
        assert(salts[k - 1] == decimal(counters[k]));
        lemma_counter_step(counters[0], (k - 1) as nat);
    }
}

/// Salts are a running counter: in a run of at most `SALT_MODULUS` successive `get_salt` calls
/// on one cache, no salt comes twice, and each salt after the first is the number of the one
/// before plus one, modulo `SALT_MODULUS`.
#[verifier::spinoff_prover]
pub proof fn lemma_salt_run(counters: Seq<nat>, salts: Seq<Seq<char>>)
    requires
        salt_run(counters, salts),
        salts.len() <= SALT_MODULUS,
    ensures
        forall|i: int, j: int| 0 <= i < j < salts.len() ==> salts[i] != salts[j],
        forall|k: int|
            0 <= k < salts.len() - 1 ==> all_digits(salts[k]) && salts[k + 1] == decimal(
                (digits_value(salts[k]) + 1) % (SALT_MODULUS as nat),
            ),
{
    assert forall|i: int, j: int| 0 <= i < j < salts.len() implies salts[i] != salts[j] by {
        lemma_salt_run_counter(counters, salts, i + 1);
        lemma_salt_run_counter(counters, salts, j + 1);
        lemma_salts_distinct(counters[0], (i + 1) as nat, (j + 1) as nat);
    }
    assert forall|k: int| 0 <= k < salts.len() - 1 implies all_digits(salts[k]) && salts[k + 1]
        == decimal((digits_value(salts[k]) + 1) % (SALT_MODULUS as nat)) by {
        assert(salts[k] == decimal(counters[k + 1]));
        assert(salts[k + 1] == decimal(counters[k + 2]));
        assert(counters[k + 2] == (counters[k + 1] + 1) % (SALT_MODULUS as nat));
        lemma_decimal_digits(counters[k + 1]);
        assert(digits_value(salts[k]) == counters[k + 1]);
    }
}

} // verus!
