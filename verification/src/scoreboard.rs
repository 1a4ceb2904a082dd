//! The misbehavior scoreboard: per-IP strike counts and timed bans.
//!
//! Keys are the peer's IP, not its IP and port, so reconnecting from a
//! new ephemeral port never resets the counter.

use vstd::prelude::*;
use crate::keymap::ByteMap;
use vstd::string::StringSliceAdditionalSpecFns;

verus! {

/// Cumulative strikes at which an IP is banned.
pub const BAN_THRESHOLD: u32 = 20;

/// Length of a ban in seconds.
pub const BAN_DURATION: u64 = 1800;

/// Severity classes of peer offenses.
#[derive(Debug, Clone, Copy)]
pub enum Offense {
    /// A block that failed a penalized check; possibly stale, not
    /// always malicious.
    InvalidBlock,
    /// An invalid transaction; could be a double-spend race.
    InvalidTransaction,
    /// A message that failed to parse: definite misbehavior.
    MalformedMessage,
    /// Ping flooding.
    SpamPing,
}

/// The strike weight of an offense.
pub open spec fn spec_strikes(o: Offense) -> u32 {
    match o {
        Offense::InvalidBlock => 2,
        Offense::InvalidTransaction => 1,
        Offense::MalformedMessage => 3,
        Offense::SpamPing => 1,
    }
}

impl Offense {
    /// How many strikes this offense costs.
    pub fn strikes(&self) -> (r: u32)
        ensures
            r == spec_strikes(*self),
    {
        match self {
            Offense::InvalidBlock => 2,
            Offense::InvalidTransaction => 1,
            Offense::MalformedMessage => 3,
            Offense::SpamPing => 1,
        }
    }
}

/// An active ban: when it expires and why it was imposed.
pub struct BanEntry {
    pub banned_until: u64,
    pub reason: String,
}

/// The IP part of an `IP:port` address: the bytes before the first
/// colon.
pub open spec fn spec_ip_of(s: Seq<u8>) -> Seq<u8>
    decreases s.len(),
{
    if s.len() == 0 {
        Seq::empty()
    } else if s[0] == 58 {
        Seq::empty()
    } else {
        seq![s[0]] + spec_ip_of(s.drop_first())
    }
}

/// Extract the IP bytes from an `IP:port` address string.
fn ip_of(addr: &str) -> (r: Vec<u8>)
    ensures
        r@ == spec_ip_of(addr.spec_bytes()),
{
    let bytes = addr.as_bytes();
    let n = bytes.len();
    let mut out: Vec<u8> = Vec::new();
    let mut i: usize = 0;
    while i < n
        invariant
            i <= n,
            n == addr.spec_bytes().len(),
            bytes@ == addr.spec_bytes(),
            forall|j: int| 0 <= j < i ==> addr.spec_bytes()[j] != 58,
            out@ == addr.spec_bytes().subrange(0, i as int),
        decreases n - i,
    {
        let b = bytes[i];
        if b == 58 {
            proof {
                lemma_ip_of_prefix(addr.spec_bytes(), i as int);
            }
            return out;
        }
        out.push(b);
        proof {
            assert(out@ =~= addr.spec_bytes().subrange(0, i + 1));
        }
        i = i + 1;
    }
    proof {
        lemma_ip_of_all(addr.spec_bytes(), n as int);
        assert(out@ =~= addr.spec_bytes().subrange(0, n as int));
    }
    out
}

/// When the first colon sits at index `i`, the IP is the prefix before it.
proof fn lemma_ip_of_prefix(s: Seq<u8>, i: int)
    requires
        0 <= i < s.len(),
        forall|j: int| 0 <= j < i ==> s[j] != 58,
        s[i] == 58,
    ensures
        spec_ip_of(s) == s.subrange(0, i),
    decreases i,
{
    if i == 0 {
        assert(spec_ip_of(s) =~= s.subrange(0, 0));
    } else {
        let t = s.drop_first();
        lemma_ip_of_prefix(t, i - 1);
        assert(spec_ip_of(s) == seq![s[0]] + spec_ip_of(t));
        assert(seq![s[0]] + t.subrange(0, i - 1) =~= s.subrange(0, i));
    }
}

/// With no colon in the first `n` bytes of an `n`-byte string, the IP is
/// the whole string.
proof fn lemma_ip_of_all(s: Seq<u8>, n: int)
    requires
        n == s.len(),
        forall|j: int| 0 <= j < n ==> s[j] != 58,
    ensures
        spec_ip_of(s) == s.subrange(0, n),
    decreases n,
{
    if n == 0 {
        assert(spec_ip_of(s) =~= s.subrange(0, 0));
    } else {
        let t = s.drop_first();
        lemma_ip_of_all(t, n - 1);
        assert(seq![s[0]] + t.subrange(0, n - 1) =~= s.subrange(0, n));
    }
}

/// Strike counts and bans per peer IP.
pub struct PeerScoreboard {
    pub strikes: ByteMap<u32>,
    pub bans: ByteMap<BanEntry>,
}

/// Whether an IP counts as banned at time `now`.
pub open spec fn spec_banned(bans: Map<Seq<u8>, BanEntry>, ip: Seq<u8>, now: u64) -> bool {
    bans.dom().contains(ip) && now < bans[ip].banned_until
}

/// The ban expiry imposed at time `now`.
pub open spec fn spec_ban_until(now: u64) -> u64 {
    if now > u64::MAX - BAN_DURATION {
        u64::MAX
    } else {
        (now + BAN_DURATION) as u64
    }
}

/// The strike count after one more offense, saturating.
pub open spec fn spec_bumped(old_count: u32, o: Offense) -> u32 {
    if old_count > u32::MAX - spec_strikes(o) {
        u32::MAX
    } else {
        (old_count + spec_strikes(o)) as u32
    }
}

impl PeerScoreboard {
    pub open spec fn wf(&self) -> bool {
        &&& self.strikes.wf()
        &&& self.bans.wf()
    }

    /// An empty scoreboard.
    pub fn new() -> (s: PeerScoreboard)
        ensures
            s.wf(),
            s.strikes@ == Map::<Seq<u8>, u32>::empty(),
            s.bans@ == Map::<Seq<u8>, BanEntry>::empty(),
    {
        PeerScoreboard { strikes: ByteMap::new(), bans: ByteMap::new() }
    }

    /// Record an offense from an address at time `now`. Returns whether
    /// the IP crossed the ban threshold and is now banned.
    pub fn record_offense(&mut self, addr: &str, offense: Offense, now: u64) -> (r: bool)
        requires
            old(self).wf(),
        ensures
            final(self).wf(),
            ({
                let ip = spec_ip_of(addr.spec_bytes());
                let old_count: u32 = if old(self).strikes@.dom().contains(ip) {
                    old(self).strikes@[ip]
                } else {
                    0u32
                };
                let count = spec_bumped(old_count, offense);
                &&& final(self).strikes@ == old(self).strikes@.insert(ip, count)
                &&& r == (count >= BAN_THRESHOLD)
                &&& (r ==> final(self).bans@.dom().contains(ip)
                    && final(self).bans@[ip].banned_until == spec_ban_until(now)
                    && final(self).bans@ == old(self).bans@.insert(ip, final(self).bans@[ip]))
                &&& (!r ==> final(self).bans@ == old(self).bans@)
            }),
    {
        let ip = ip_of(addr);
        let old_count: u32 = match self.strikes.get(&ip) {
            Some(c) => *c,
            None => 0,
        };
        let w = offense.strikes();
        let count: u32 = if old_count > u32::MAX - w {
            u32::MAX
        } else {
            old_count + w
        };
        let ip2 = crate::types::clone_bytes(&ip);
        self.strikes.insert(ip, count);
        if count >= BAN_THRESHOLD {
            let until: u64 = if now > u64::MAX - BAN_DURATION {
                u64::MAX
            } else {
                now + BAN_DURATION
            };
            let reason: &str = "strike threshold reached";
            self.bans.insert(ip2, BanEntry { banned_until: until, reason: reason.to_owned() });
            true
        } else {
            false
        }
    }

    /// Whether an address's IP is currently banned.
    pub fn is_banned(&self, addr: &str, now: u64) -> (r: bool)
        requires
            self.wf(),
        ensures
            r == spec_banned(self.bans@, spec_ip_of(addr.spec_bytes()), now),
    {
        let ip = ip_of(addr);
        match self.bans.get(&ip) {
            Some(entry) => now < entry.banned_until,
            None => false,
        }
    }

    /// Clear expired bans and the strikes of the unbanned IPs.
    pub fn cleanup(&mut self, now: u64)
        requires
            old(self).wf(),
        ensures
            final(self).wf(),
            forall|ip: Seq<u8>|
                #[trigger] final(self).bans@.dom().contains(ip) <==> (old(
                    self,
                ).bans@.dom().contains(ip) && now < old(self).bans@[ip].banned_until),
            forall|ip: Seq<u8>|
                #[trigger] final(self).bans@.dom().contains(ip) ==> final(self).bans@[ip] == old(
                    self,
                ).bans@[ip],
            forall|ip: Seq<u8>| !spec_banned(final(self).bans@, ip, now) || spec_banned(
                old(self).bans@,
                ip,
                now,
            ),
            // Expired IPs lose their strike counts (a fresh start);
            // everyone else's count is untouched.
            forall|ip: Seq<u8>|
                old(self).bans@.dom().contains(ip) && now >= old(self).bans@[ip].banned_until
                    ==> !final(self).strikes@.dom().contains(ip),
            forall|ip: Seq<u8>|
                #[trigger] final(self).strikes@.dom().contains(ip) ==> old(
                    self,
                ).strikes@.dom().contains(ip) && final(self).strikes@[ip] == old(
                    self,
                ).strikes@[ip],
            forall|ip: Seq<u8>|
                #[trigger] old(self).strikes@.dom().contains(ip) && !(old(
                    self,
                ).bans@.dom().contains(ip) && now >= old(self).bans@[ip].banned_until)
                    ==> final(self).strikes@.dom().contains(ip),
    {
        // Collect the expired IPs, then remove their bans and strikes.
        let mut expired: Vec<Vec<u8>> = Vec::new();
        let n = self.bans.len();
        let mut i: usize = 0;
        let ghost bans0 = self.bans@;
        let ghost pairs0 = self.bans.pairs();
        while i < n
            invariant
                i <= n,
                self.wf(),
                n == self.bans.pairs().len(),
                pairs0 == self.bans.pairs(),
                bans0 == self.bans@,
                forall|j: int|
                    0 <= j < expired@.len() ==> bans0.dom().contains(
                        (#[trigger] expired@[j])@,
                    ) && now >= bans0[expired@[j]@].banned_until,
                forall|j: int|
                    0 <= j < i ==> (now >= (#[trigger] pairs0[j]).1.banned_until
                        ==> exists|e: int|
                        0 <= e < expired@.len() && (#[trigger] expired@[e])@ == pairs0[j].0@),
            decreases n - i,
        {
            let entry_until = self.bans.entries()[i].1.banned_until;
            let ghost old_expired = expired@;
            if now >= entry_until {
                let key = crate::types::clone_bytes(&self.bans.entries()[i].0);
                proof {
                    self.bans.lemma_pair_in_view(i as int);
                }
                expired.push(key);
                proof {
                    assert((expired@[expired@.len() - 1])@ == pairs0[i as int].0@);
                }
            }
            proof {
                assert forall|j: int|
                    0 <= j < i + 1 && now >= (#[trigger] pairs0[j]).1.banned_until implies exists|
                    e: int,
                |
                    0 <= e < expired@.len() && (#[trigger] expired@[e])@ == pairs0[j].0@ by {
                    if j < i {
                        let e0 = choose|e0: int|
                            0 <= e0 < old_expired.len() && (#[trigger] old_expired[e0])@
                                == pairs0[j].0@;
                        assert((expired@[e0])@ == pairs0[j].0@);
                    } else {
                        assert((expired@[expired@.len() - 1])@ == pairs0[j].0@);
                    }
                }
            }
            i = i + 1;
        }
        // Remove each expired IP from both maps.
        let m = expired.len();
        let mut t: usize = 0;
        while t < m
            invariant
                t <= m,
                m == expired@.len(),
                self.wf(),
                old(self).bans.wf(),
                old(self).bans@ == bans0,
                old(self).bans.pairs() == pairs0,
                n == pairs0.len(),
                forall|j: int|
                    0 <= j < m ==> bans0.dom().contains((#[trigger] expired@[j])@) && now
                        >= bans0[expired@[j]@].banned_until,
                forall|j: int|
                    0 <= j < n ==> (now >= (#[trigger] pairs0[j]).1.banned_until ==> exists|e: int|
                        0 <= e < m && (#[trigger] expired@[e])@ == pairs0[j].0@),
                forall|ip: Seq<u8>|
                    #[trigger] self.bans@.dom().contains(ip) ==> bans0.dom().contains(ip)
                        && self.bans@[ip] == bans0[ip],
                forall|ip: Seq<u8>|
                    bans0.dom().contains(ip) && !self.bans@.dom().contains(ip) ==> exists|e: int|
                        0 <= e < t && (#[trigger] expired@[e])@ == ip,
                forall|e: int|
                    0 <= e < t ==> !self.bans@.dom().contains((#[trigger] expired@[e])@),
                forall|j: int|
                    0 <= j < n ==> (now < (#[trigger] pairs0[j]).1.banned_until
                        ==> self.bans@.dom().contains(pairs0[j].0@)),
                old(self).strikes.wf(),
                forall|ip: Seq<u8>|
                    #[trigger] self.strikes@.dom().contains(ip) ==> old(
                        self,
                    ).strikes@.dom().contains(ip) && self.strikes@[ip] == old(
                        self,
                    ).strikes@[ip],
                forall|ip: Seq<u8>|
                    old(self).strikes@.dom().contains(ip) && !self.strikes@.dom().contains(ip)
                        ==> exists|e: int| 0 <= e < t && (#[trigger] expired@[e])@ == ip,
                forall|e: int|
                    0 <= e < t ==> !self.strikes@.dom().contains((#[trigger] expired@[e])@),
            decreases m - t,
        {
            let ghost before = self.bans@;
            let ghost strikes_before = self.strikes@;
            let _ = self.bans.remove(&expired[t]);
            let _ = self.strikes.remove(&expired[t]);
            proof {
                let kt0 = expired@[t as int]@;
                assert forall|ip: Seq<u8>|
                    old(self).strikes@.dom().contains(ip) && !self.strikes@.dom().contains(
                        ip,
                    ) implies exists|e: int|
                    0 <= e < t + 1 && (#[trigger] expired@[e])@ == ip by {
                    if ip == kt0 {
                        assert((expired@[t as int])@ == ip);
                    } else {
                        assert(!strikes_before.dom().contains(ip));
                        let e0 = choose|e0: int|
                            0 <= e0 < t && (#[trigger] expired@[e0])@ == ip;
                        assert((expired@[e0])@ == ip);
                    }
                }
                let kt = expired@[t as int]@;
                assert(bans0.dom().contains(kt) && now >= bans0[kt].banned_until);
                assert forall|j: int|
                    0 <= j < n && now < (#[trigger] pairs0[j]).1.banned_until implies self.bans@.dom().contains(
                    pairs0[j].0@,
                ) by {
                    old(self).bans.lemma_pair_in_view(j);
                    assert(bans0[pairs0[j].0@] == pairs0[j].1);
                    assert(pairs0[j].0@ != kt);
                }
                assert forall|ip: Seq<u8>|
                    bans0.dom().contains(ip) && !self.bans@.dom().contains(ip) implies exists|
                    e: int,
                |
                    0 <= e < t + 1 && (#[trigger] expired@[e])@ == ip by {
                    if ip == kt {
                        assert((expired@[t as int])@ == ip);
                    } else {
                        assert(!before.dom().contains(ip));
                        let e0 = choose|e0: int|
                            0 <= e0 < t && (#[trigger] expired@[e0])@ == ip;
                        assert((expired@[e0])@ == ip);
                    }
                }
            }
            t = t + 1;
        }
        proof {
            assert forall|ip: Seq<u8>| #[trigger] self.bans@.dom().contains(ip) implies (
            bans0.dom().contains(ip) && now < bans0[ip].banned_until) by {
                let j = choose|j: int|
                    0 <= j < self.bans.pairs().len() && (#[trigger] self.bans.pairs()[j]).0@ == ip;
                self.bans.lemma_pair_in_view(j);
                if now >= self.bans@[ip].banned_until {
                    let oj = choose|oj: int| 0 <= oj < n && (#[trigger] pairs0[oj]).0@ == ip;
                    assert(false);
                }
            }
            assert forall|ip: Seq<u8>|
                bans0.dom().contains(ip) && now < bans0[ip].banned_until implies #[trigger] self.bans@.dom().contains(
                ip,
            ) by {
                let oj = choose|oj: int| 0 <= oj < n && (#[trigger] pairs0[oj]).0@ == ip;
                old(self).bans.lemma_pair_in_view(oj);
            }
            // Every expired-ban IP sits in the collected list, so its
            // strike count is gone.
            assert forall|ip: Seq<u8>|
                bans0.dom().contains(ip) && now >= bans0[ip].banned_until implies !self.strikes@.dom().contains(
                ip,
            ) by {
                let oj = choose|oj: int| 0 <= oj < n && (#[trigger] pairs0[oj]).0@ == ip;
                old(self).bans.lemma_pair_in_view(oj);
                assert(now >= pairs0[oj].1.banned_until);
                let e = choose|e: int| 0 <= e < m && (#[trigger] expired@[e])@ == ip;
                assert(!self.strikes@.dom().contains((expired@[e])@));
            }
        }
    }

    /// Number of currently active bans.
    pub fn ban_count(&self, now: u64) -> (r: usize)
        requires
            self.wf(),
        ensures
            r <= self.bans.pairs().len(),
            (forall|j: int|
                0 <= j < self.bans.pairs().len() ==> now < (
                #[trigger] self.bans.pairs()[j]).1.banned_until) ==> r == self.bans.pairs().len(),
    {
        let n = self.bans.len();
        let mut count: usize = 0;
        let mut i: usize = 0;
        while i < n
            invariant
                i <= n,
                self.wf(),
                n == self.bans.pairs().len(),
                count <= i,
                (forall|j: int|
                    0 <= j < i ==> now < (#[trigger] self.bans.pairs()[j]).1.banned_until)
                    ==> count == i,
            decreases n - i,
        {
            if now < self.bans.entries()[i].1.banned_until {
                count = count + 1;
            }
            i = i + 1;
        }
        count
    }
}

} // verus!
