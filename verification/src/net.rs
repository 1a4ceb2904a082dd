//! The pure parts of the peer-to-peer protocol: the message set, frame
//! layout, handshake rules, block locators and compact-block
//! reconstruction state. Sockets and tasks live outside the verified
//! library and hand byte frames and plain values in and out.

use vstd::prelude::*;
use crate::hashes::Hash256;
use crate::types::{Block, BlockHeader, Transaction, tx_view_eq};
use crate::encoding::{le_bytes_n, le_word, push_le32};
use crate::params::MIN_PROTOCOL_VERSION;
use crate::chain::{Chain, BlockError};
use crate::scoreboard::Offense;
use crate::keymap::KeyMap;
use crate::mempool::Mempool;
use crate::types::{spec_meets_difficulty, spec_header_pow_hash};

verus! {

/// Frame header size: four magic bytes and a little-endian length.
pub const FRAME_HEADER_SIZE: usize = 8;

/// Maximum accepted payload: 64 MiB.
pub const MAX_MESSAGE_SIZE: usize = 64 * 1024 * 1024;

/// The peer-to-peer message set. The wire codec lives outside the
/// library; handlers decide over these plain values.
pub enum NetMessage {
    Version { version: u32, best_height: u64, best_hash: Hash256, timestamp: u64, listen_port: u16 },
    VersionAck,
    NewBlock(Block),
    NewTransaction(Transaction),
    GetBlocks { start_height: u64, count: u32 },
    Blocks(Vec<Block>),
    GetBlock(Hash256),
    Ping(u64),
    Pong(u64),
    GetPeers,
    Peers(Vec<String>),
    VersionV2 {
        version: u32,
        best_height: u64,
        best_hash: Hash256,
        genesis_hash: Hash256,
        timestamp: u64,
        listen_port: u16,
    },
    GetHeaders { start_height: u64, count: u32 },
    GetHeadersFrom { locator: Vec<Hash256>, count: u32 },
    Headers(Vec<BlockHeader>),
    GetBlockData(Vec<Hash256>),
    BlockData(Vec<Block>),
    CompactBlock { header: BlockHeader, short_txids: Vec<Hash256>, coinbase: Transaction },
    GetTransactions(Vec<Hash256>),
    TransactionBatch(Vec<Transaction>),
}

/// What a connection knows about its peer.
pub struct PeerInfo {
    pub address: String,
    pub listen_address: String,
    pub version: u32,
    pub best_height: u64,
    pub last_seen: u64,
    pub supports_v2: bool,
}

// ─── Framing ─────────────────────────────────────────────────────────

/// A full frame: magic, little-endian payload length, payload.
pub open spec fn spec_frame(magic: Seq<u8>, payload: Seq<u8>) -> Seq<u8> {
    magic + le_bytes_n(payload.len() as nat, 4) + payload
}

/// Wrap a payload in a frame under the network's magic.
pub fn frame_payload(magic: &[u8; 4], payload: &Vec<u8>) -> (r: Vec<u8>)
    requires
        payload@.len() <= MAX_MESSAGE_SIZE,
    ensures
        r@ == spec_frame(magic@, payload@),
{
    let mut out: Vec<u8> = Vec::new();
    out.push(magic[0]);
    out.push(magic[1]);
    out.push(magic[2]);
    out.push(magic[3]);
    push_le32(&mut out, payload.len() as u32);
    let mut i: usize = 0;
    let n = payload.len();
    while i < n
        invariant
            i <= n,
            n == payload@.len(),
            out@ == magic@ + le_bytes_n(payload@.len() as nat, 4) + payload@.subrange(0, i as int),
        decreases n - i,
    {
        out.push(payload[i]);
        proof {
            assert(out@ =~= magic@ + le_bytes_n(payload@.len() as nat, 4) + payload@.subrange(
                0,
                i + 1,
            ));
        }
        i = i + 1;
    }
    proof {
        assert(payload@.subrange(0, n as int) =~= payload@);
        assert(out@ =~= spec_frame(magic@, payload@));
    }
    out
}

/// Why an incoming frame header was refused; either closes the
/// connection.
#[derive(Debug)]
pub enum FrameError {
    BadMagic,
    TooLarge,
}

/// The length field of a frame header.
pub open spec fn spec_frame_len(header: Seq<u8>) -> nat {
    le_word(header.subrange(4, 8))
}

/// Check an incoming 8-byte frame header against the network magic and
/// the payload cap; return the payload length to read.
pub fn parse_frame_header(header: &Vec<u8>, magic: &[u8; 4]) -> (r: Result<usize, FrameError>)
    requires
        header@.len() == 8,
    ensures
        match r {
            Ok(n) => header@.subrange(0, 4) == magic@ && n == spec_frame_len(header@) && n
                <= MAX_MESSAGE_SIZE,
            Err(e) => {
                ||| (e is BadMagic && header@.subrange(0, 4) != magic@)
                ||| (e is TooLarge && spec_frame_len(header@) > MAX_MESSAGE_SIZE)
            },
        },
{
    if header[0] != magic[0] || header[1] != magic[1] || header[2] != magic[2] || header[3]
        != magic[3] {
        proof {
            assert(header@.subrange(0, 4) != magic@) by {
                if header@.subrange(0, 4) == magic@ {
                    assert(header@[0] == magic@[0] && header@[1] == magic@[1] && header@[2]
                        == magic@[2] && header@[3] == magic@[3]) by {
                        assert(header@.subrange(0, 4)[0] == header@[0]);
                        assert(header@.subrange(0, 4)[1] == header@[1]);
                        assert(header@.subrange(0, 4)[2] == header@[2]);
                        assert(header@.subrange(0, 4)[3] == header@[3]);
                    }
                }
            }
        }
        return Err(FrameError::BadMagic);
    }
    proof {
        assert(header@.subrange(0, 4) =~= magic@);
    }
    let len_word = crate::encoding::le32_at(header, 4);
    if len_word as u64 > MAX_MESSAGE_SIZE as u64 {
        return Err(FrameError::TooLarge);
    }
    Ok(len_word as usize)
}

// ─── Handshake ───────────────────────────────────────────────────────

/// What to do with a peer after reading its version message.
#[derive(Debug)]
pub enum HandshakeDecision {
    /// Protocol too old: disconnect without penalty.
    RejectOldProtocol,
    /// Different genesis: wrong network, disconnect; never adopt the
    /// peer's chain on this account.
    RejectWrongGenesis,
    /// Legacy version message: disconnect without penalty.
    RejectLegacy,
    /// Proceed with the session.
    Accept,
}

/// Decide a version-two handshake: the protocol floor first, then the
/// genesis check, which alone distinguishes a wrong network from a peer
/// that is merely behind.
pub fn handshake_decision(version: u32, peer_genesis: &Hash256, our_genesis: &Hash256) -> (r:
    HandshakeDecision)
    ensures
        r is RejectOldProtocol <==> version < MIN_PROTOCOL_VERSION,
        r is RejectWrongGenesis <==> (version >= MIN_PROTOCOL_VERSION && *peer_genesis
            != *our_genesis),
        r is Accept <==> (version >= MIN_PROTOCOL_VERSION && *peer_genesis == *our_genesis),
{
    if version < MIN_PROTOCOL_VERSION {
        HandshakeDecision::RejectOldProtocol
    } else if !(peer_genesis == our_genesis) {
        HandshakeDecision::RejectWrongGenesis
    } else {
        HandshakeDecision::Accept
    }
}


/// The strike an offered block's rejection earns, if any: duplicates,
/// orphans and height races are normal propagation noise and go
/// unpunished; everything else is a penalized invalid block.
pub fn offense_for_block_error(e: &BlockError) -> (r: Option<Offense>)
    ensures
        r is None <==> (e is DuplicateBlock || e is OrphanBlock || e is InvalidHeight),
        r matches Some(o) ==> o is InvalidBlock,
{
    match e {
        BlockError::DuplicateBlock => None,
        BlockError::OrphanBlock => None,
        BlockError::InvalidHeight => None,
        _ => Some(Offense::InvalidBlock),
    }
}

/// Where to resume serving headers for a locator: one past the height
/// of the first (newest) locator hash we recognize (saturating), or
/// zero when none is known.
pub fn locator_rendezvous(chain: &Chain, locator: &Vec<Hash256>) -> (start: u64)
    requires
        chain.wf(),
    ensures
        ({
            ||| (exists|j: int|
                {
                    &&& 0 <= j < locator@.len()
                    &&& chain.headers@.dom().contains(#[trigger] locator@[j])
                    &&& start == (if chain.headers@[locator@[j]].height == u64::MAX {
                        u64::MAX as int
                    } else {
                        chain.headers@[locator@[j]].height + 1
                    })
                    &&& (forall|q: int|
                        0 <= q < j ==> !chain.headers@.dom().contains(#[trigger] locator@[q]))
                })
            ||| (start == 0 && (forall|q: int|
                0 <= q < locator@.len() ==> !chain.headers@.dom().contains(
                    #[trigger] locator@[q],
                )))
        }),
{
    let n = locator.len();
    let mut j: usize = 0;
    while j < n
        invariant
            j <= n,
            n == locator@.len(),
            chain.headers.wf(),
            forall|q: int| 0 <= q < j ==> !chain.headers@.dom().contains(#[trigger] locator@[q]),
        decreases n - j,
    {
        match chain.headers.get(&locator[j]) {
            Some(hdr) => {
                let h = hdr.height;
                proof {
                    assert(chain.headers@.dom().contains(locator@[j as int]));
                }
                if h == u64::MAX {
                    return u64::MAX;
                }
                return h + 1;
            },
            None => {},
        }
        j = j + 1;
    }
    0
}

// ─── Locators ────────────────────────────────────────────────────────

/// The heights a locator visits after its first entry, walking down
/// from cursor `h` with the given step and entry count: one block per
/// step for the first eight entries, then a doubling step capped at
/// 1024, ending at height zero or at the entry cap.
pub open spec fn locator_steps(h: int, step: int, len: int, max: int) -> Seq<int>
    decreases h
        when h >= 0 && step >= 1
{
    if h <= 0 || len >= max {
        Seq::empty()
    } else {
        let next: int = if h > step {
            h - step
        } else {
            0
        };
        let len2 = len + 1;
        let step2: int = if len2 > 8 {
            if step >= 1024 {
                1024
            } else {
                2 * step
            }
        } else {
            step
        };
        if next == 0 {
            seq![0]
        } else {
            seq![next] + locator_steps(next, step2, len2, max)
        }
    }
}

/// The full height schedule of a locator over a chain whose tip sits at
/// height `n - 1`: the tip first, the stepped walk after it, and the
/// genesis height last.
pub open spec fn spec_locator_heights(n: int, max: int) -> Seq<int> {
    let base = seq![n - 1] + locator_steps(n - 1, 1, 1, max);
    if base.last() == 0 {
        base
    } else {
        base.push(0)
    }
}

/// The stepped walk visits heights strictly below its cursor, in
/// strictly decreasing order, never below zero.
proof fn lemma_locator_steps_decreasing(h: int, step: int, len: int, max: int)
    requires
        h >= 1,
        step >= 1,
    ensures
        ({
            let sl = locator_steps(h, step, len, max);
            &&& (forall|j: int| 0 <= j < sl.len() ==> 0 <= #[trigger] sl[j] < h)
            &&& (forall|j: int, k: int| 0 <= j < k < sl.len() ==> #[trigger] sl[k] < #[trigger] sl[j])
        }),
    decreases h,
{
    let sl = locator_steps(h, step, len, max);
    if h <= 0 || len >= max {
    } else {
        let next: int = if h > step {
            h - step
        } else {
            0
        };
        if next == 0 {
        } else {
            let len2 = len + 1;
            let step2: int = if len2 > 8 {
                if step >= 1024 {
                    1024
                } else {
                    2 * step
                }
            } else {
                step
            };
            lemma_locator_steps_decreasing(next, step2, len2, max);
            let rest = locator_steps(next, step2, len2, max);
            assert forall|j: int, k: int| 0 <= j < k < sl.len() implies #[trigger] sl[k]
                < #[trigger] sl[j] by {
                if j == 0 {
                    assert(sl[k] == rest[k - 1]);
                } else {
                    assert(sl[j] == rest[j - 1] && sl[k] == rest[k - 1]);
                }
            }
        }
    }
}

/// The locator's height schedule starts at the tip, ends at genesis,
/// stays within the chain, and strictly decreases.
pub proof fn lemma_locator_heights_shape(n: int, max: int)
    requires
        n >= 1,
        max >= 2,
    ensures
        ({
            let sl = spec_locator_heights(n, max);
            &&& sl.len() >= 1
            &&& sl[0] == n - 1
            &&& sl.last() == 0
            &&& (forall|j: int| 0 <= j < sl.len() ==> 0 <= #[trigger] sl[j] < n)
            &&& (forall|j: int, k: int| 0 <= j < k < sl.len() ==> #[trigger] sl[k] < #[trigger] sl[j])
        }),
{
    let base = seq![n - 1] + locator_steps(n - 1, 1, 1, max);
    let steps = locator_steps(n - 1, 1, 1, max);
    if n - 1 >= 1 {
        lemma_locator_steps_decreasing(n - 1, 1, 1, max);
    }
    let sl = spec_locator_heights(n, max);
    assert forall|j: int, k: int| 0 <= j < k < sl.len() implies #[trigger] sl[k]
        < #[trigger] sl[j] by {
        if k < base.len() {
            if j == 0 {
                assert(sl[k] == steps[k - 1]);
            } else {
                assert(sl[j] == steps[j - 1] && sl[k] == steps[k - 1]);
            }
        } else {
            assert(sl[k] == 0 && base.last() != 0);
            if j == 0 {
            } else {
                assert(sl[j] == steps[j - 1]);
                if j == base.len() - 1 {
                    assert(steps[j - 1] == base.last());
                }
            }
        }
    }
}

/// Build a block locator: newest first, advancing one block for the
/// first eight entries, then doubling the step up to 1024, and always
/// ending with the genesis hash. The entries are the active hashes at
/// the strictly decreasing heights of the locator schedule.
/// Build a block locator: newest first, advancing one block for the
/// first eight entries, then doubling the step up to 1024, and always
/// ending with the genesis hash. The entries are the active hashes at
/// the strictly decreasing heights of the locator schedule.
pub fn build_locator(chain: &Chain, max: usize) -> (r: Vec<Hash256>)
    requires
        chain.wf(),
        max >= 2,
    ensures
        r@.len() >= 1,
        r@.len() <= max + 1,
        r@[0] == chain.tip,
        r@.last() == chain.height_index@[0],
        r@.len() == spec_locator_heights(chain.height_index@.len() as int, max as int).len(),
        forall|j: int|
            0 <= j < r@.len() ==> #[trigger] r@[j] == chain.height_index@[spec_locator_heights(
                chain.height_index@.len() as int,
                max as int,
            )[j]],
{
    let mut locator: Vec<Hash256> = Vec::new();
    let n = chain.height_index.len();
    let ghost base = seq![n - 1 as int] + locator_steps(n - 1, 1, 1, max as int);
    let ghost mut hs: Seq<int> = seq![n - 1 as int];
    let mut h: usize = n - 1;
    let mut step: usize = 1;
    locator.push(chain.height_index[n - 1]);
    proof {
        assert(locator@[0] == chain.height_index@[n - 1]);
        assert(base =~= hs + locator_steps(h as int, step as int, locator@.len() as int, max as int));
    }
    while h > 0 && locator.len() < max
        invariant_except_break
            h < n,
            1 <= step <= 2048,
            locator@.len() >= 1,
            locator@.len() <= max,
            hs.len() == locator@.len(),
            hs.last() == h as int,
            base == hs + locator_steps(h as int, step as int, locator@.len() as int, max as int),
        invariant
            n == chain.height_index@.len(),
            max >= 2,
            locator@[0] == chain.tip,
            forall|j: int| 0 <= j < hs.len() ==> 0 <= #[trigger] hs[j] < n,
            forall|j: int|
                0 <= j < locator@.len() ==> #[trigger] locator@[j] == chain.height_index@[hs[j]],
            hs[0] == n - 1,
        ensures
            hs.len() == locator@.len(),
            base == hs,
            1 <= locator@.len() <= max,
        decreases h,
    {
        let ghost h0 = h as int;
        let ghost step0 = step as int;
        let ghost len0 = locator@.len() as int;
        let next: usize = if h > step {
            h - step
        } else {
            0
        };
        locator.push(chain.height_index[next]);
        proof {
            hs = hs.push(next as int);
            assert(locator@.last() == chain.height_index@[next as int]);
        }
        if locator.len() > 8 {
            step = if step >= 1024 {
                1024
            } else {
                step * 2
            };
        }
        if next == 0 {
            proof {
                assert(locator_steps(h0, step0, len0, max as int) =~= seq![0int]);
                assert(base =~= hs);
            }
            break ;
        }
        proof {
            assert(locator_steps(h0, step0, len0, max as int) =~= seq![next as int]
                + locator_steps(next as int, step as int, locator@.len() as int, max as int));
            assert(base =~= hs + locator_steps(
                next as int,
                step as int,
                locator@.len() as int,
                max as int,
            ));
        }
        h = next;
    }
    locator_push_genesis(chain, locator, Ghost(hs), max)
}

/// Close a stepped locator with the genesis hash, when the walk did not
/// already reach height zero.
#[verifier::rlimit(60)]
fn locator_push_genesis(
    chain: &Chain,
    locator: Vec<Hash256>,
    Ghost(hs): Ghost<Seq<int>>,
    max: usize,
) -> (r: Vec<Hash256>)
    requires
        chain.wf(),
        max >= 2,
        locator@.len() == hs.len(),
        1 <= locator@.len() <= max,
        hs == seq![chain.height_index@.len() - 1 as int] + locator_steps(
            chain.height_index@.len() - 1,
            1,
            1,
            max as int,
        ),
        locator@[0] == chain.tip,
        hs[0] == chain.height_index@.len() - 1,
        forall|j: int| 0 <= j < hs.len() ==> 0 <= #[trigger] hs[j] < chain.height_index@.len(),
        forall|j: int|
            0 <= j < locator@.len() ==> #[trigger] locator@[j] == chain.height_index@[hs[j]],
    ensures
        r@.len() >= 1,
        r@.len() <= max + 1,
        r@[0] == chain.tip,
        r@.last() == chain.height_index@[0],
        r@.len() == spec_locator_heights(chain.height_index@.len() as int, max as int).len(),
        forall|j: int|
            0 <= j < r@.len() ==> #[trigger] r@[j] == chain.height_index@[spec_locator_heights(
                chain.height_index@.len() as int,
                max as int,
            )[j]],
{
    let ghost n = chain.height_index@.len() as int;
    let mut locator = locator;
    let ghost mut hs2 = hs;
    let last = locator[locator.len() - 1];
    let genesis = chain.height_index[0];
    if !(last == genesis) {
        locator.push(genesis);
        proof {
            // A non-genesis last hash means a nonzero last height.
            assert(hs.last() != 0) by {
                if hs.last() == 0 {
                    assert(locator@[locator@.len() - 2] == chain.height_index@[0]);
                }
            }
            hs2 = hs.push(0);
            assert(spec_locator_heights(n, max as int) =~= hs2);
        }
    } else {
        proof {
            // The genesis hash only sits at height zero.
            let hl = hs.last();
            assert(chain.height_index@[hl] == chain.height_index@[0]);
            assert(chain.headers@[chain.height_index@[hl]].height == hl);
            assert(chain.headers@[chain.height_index@[0]].height == 0);
            assert(hl == 0);
            assert(spec_locator_heights(n, max as int) =~= hs2);
        }
    }
    proof {
        assert(locator@.len() == hs2.len());
        assert forall|j: int| 0 <= j < locator@.len() implies #[trigger] locator@[j]
            == chain.height_index@[spec_locator_heights(n, max as int)[j]] by {
            assert(spec_locator_heights(n, max as int)[j] == hs2[j]);
        }
        assert(locator@.last() == chain.height_index@[0]);
    }
    locator
}

// ─── Compact-block reconstruction ────────────────────────────────────

/// Reconstruction state of one announced compact block: the header, a
/// buffer with the coinbase placed and holes for the rest, and the
/// txids still missing.
pub struct PendingCompact {
    pub header: BlockHeader,
    pub txs: Vec<Option<Transaction>>,
    pub short_txids: Vec<Hash256>,
    pub missing: Vec<Hash256>,
    pub created_at: u64,
}

impl PendingCompact {
    /// Positions correspond to the announced short ids, offset by the
    /// coinbase at the front.
    pub open spec fn wf(&self) -> bool {
        &&& self.txs@.len() == self.short_txids@.len() + 1
        &&& self.txs@[0] is Some
        &&& (forall|j: int|
            0 <= j < self.missing@.len() ==> self.short_txids@.contains(
                #[trigger] self.missing@[j],
            ))
    }

    /// Whether every slot is filled and the block can be assembled.
    pub fn is_complete(&self) -> (r: bool)
        ensures
            r == (self.missing@.len() == 0),
    {
        self.missing.len() == 0
    }

    /// Place a received transaction at every slot announced under its
    /// short id, and drop that id from the missing set.
    pub fn supply(&mut self, txid: &Hash256, tx: &Transaction)
        requires
            old(self).wf(),
            crate::types::tx_encodable(*tx),
        ensures
            final(self).wf(),
            final(self).header == old(self).header,
            final(self).short_txids@ == old(self).short_txids@,
            final(self).created_at == old(self).created_at,
            final(self).txs@.len() == old(self).txs@.len(),
            final(self).txs@[0] == old(self).txs@[0],
            // Every slot announced under this id now holds the
            // transaction; every other slot is untouched.
            forall|j: int|
                0 <= j < old(self).short_txids@.len() && old(self).short_txids@[j] == *txid ==> ((
                #[trigger] final(self).txs@[j + 1]) matches Some(t2) && tx_view_eq(t2, *tx)),
            forall|j: int|
                0 <= j < old(self).short_txids@.len() && old(self).short_txids@[j] != *txid
                    ==> (#[trigger] final(self).txs@[j + 1]) == old(self).txs@[j + 1],
            // The id leaves the missing set; nothing else does.
            !final(self).missing@.contains(*txid),
            forall|v: Hash256|
                old(self).missing@.contains(v) && v != *txid ==> final(self).missing@.contains(
                    v,
                ),
            forall|v: Hash256|
                final(self).missing@.contains(v) ==> old(self).missing@.contains(v) && v
                    != *txid,
    {
        // Fill every announced position carrying this id.
        let n = self.short_txids.len();
        let mut j: usize = 0;
        while j < n
            invariant
                j <= n,
                n == self.short_txids@.len(),
                self.txs@.len() == n + 1,
                self.txs@[0] == old(self).txs@[0],
                self.txs@[0] is Some,
                self.header == old(self).header,
                self.created_at == old(self).created_at,
                self.short_txids@ == old(self).short_txids@,
                self.missing@ == old(self).missing@,
                crate::types::tx_encodable(*tx),
                forall|q: int|
                    0 <= q < j && self.short_txids@[q] == *txid ==> ((
                    #[trigger] self.txs@[q + 1]) matches Some(t2) && tx_view_eq(t2, *tx)),
                forall|q: int|
                    0 <= q < n && (q >= j || self.short_txids@[q] != *txid) ==> (
                    #[trigger] self.txs@[q + 1]) == old(self).txs@[q + 1],
            decreases n - j,
        {
            if self.short_txids[j] == *txid {
                self.txs.set(j + 1, Some(crate::types::clone_tx(tx)));
            }
            j = j + 1;
        }
        // Drop the id from the missing list.
        let mut still: Vec<Hash256> = Vec::new();
        let m = self.missing.len();
        let mut k: usize = 0;
        while k < m
            invariant
                k <= m,
                m == self.missing@.len(),
                still@.len() <= k,
                self.short_txids@ == old(self).short_txids@,
                forall|p: int|
                    0 <= p < still@.len() ==> self.missing@.contains(#[trigger] still@[p])
                        && still@[p] != *txid,
                forall|q: int|
                    0 <= q < k && self.missing@[q] != *txid ==> still@.contains(
                        #[trigger] self.missing@[q],
                    ),
            decreases m - k,
        {
            if !(self.missing[k] == *txid) {
                let v = self.missing[k];
                let ghost before = still@;
                proof {
                    assert(self.missing@.contains(v));
                }
                still.push(v);
                proof {
                    assert(still@.last() == v);
                    assert forall|q: int|
                        0 <= q < k + 1 && self.missing@[q] != *txid implies still@.contains(
                        #[trigger] self.missing@[q],
                    ) by {
                        if q < k {
                            let w = choose|w: int|
                                0 <= w < before.len() && before[w] == self.missing@[q];
                            assert(still@[w] == self.missing@[q]);
                        } else {
                            assert(still@[still@.len() - 1] == self.missing@[q]);
                        }
                    }
                }
            }
            k = k + 1;
        }
        proof {
            assert forall|p: int| 0 <= p < still@.len() implies self.short_txids@.contains(
                #[trigger] still@[p],
            ) by {
                let q = choose|q: int| 0 <= q < self.missing@.len() && self.missing@[q] == still@[p];
            }
        }
        let ghost old_missing = self.missing@;
        self.missing = still;
        proof {
            assert(!self.missing@.contains(*txid));
            assert forall|v: Hash256|
                old_missing.contains(v) && v != *txid implies self.missing@.contains(v) by {
                let q = choose|q: int| 0 <= q < old_missing.len() && old_missing[q] == v;
            }
        }
    }
}


// ─── Compact-block event machine ─────────────────────────────────────

/// What a connection or the maintenance tick feeds the reconstruction
/// table.
pub enum CompactEvent {
    /// A compact announcement: header, short ids, and the full
    /// coinbase. `already_known` reports whether the chain already
    /// holds the block.
    Announce {
        header: BlockHeader,
        short_txids: Vec<Hash256>,
        coinbase: Transaction,
        already_known: bool,
    },
    /// Transactions answering an earlier request for missing ids.
    Batch { txs: Vec<Transaction> },
    /// The periodic maintenance tick.
    Tick,
}

/// What the caller must do in response.
pub enum CompactAction {
    /// The announced header fails its own proof of work: apply a
    /// doubled invalid-block strike and drop the announcement.
    PenalizeBadPow,
    /// Ask the peer for the transactions still missing.
    RequestMissing(Vec<Hash256>),
    /// A block was fully reconstructed: offer it to the acceptance
    /// path.
    Accept(Block),
}

/// The pending table's own invariant: every entry is well formed and
/// keyed by the proof-of-work hash of its header.
pub open spec fn compact_table_ok(t: Map<Hash256, PendingCompact>) -> bool {
    forall|k: Hash256|
        #[trigger] t.dom().contains(k) ==> t[k].wf() && crate::types::spec_header_pow_hash(
            t[k].header,
        ) == k
}

/// The pending table never holds more entries than this.
pub const MAX_PENDING_COMPACTS: usize = 50;

/// Pending entries this old are expired by the tick.
pub const PENDING_COMPACT_TTL: u64 = 30;

/// Copy a list of hashes.
fn copy_hash_list(src: &Vec<Hash256>) -> (r: Vec<Hash256>)
    ensures
        r@ == src@,
{
    let mut out: Vec<Hash256> = Vec::new();
    let n = src.len();
    let mut i: usize = 0;
    while i < n
        invariant
            i <= n,
            n == src@.len(),
            out@ == src@.subrange(0, i as int),
        decreases n - i,
    {
        out.push(src[i]);
        proof {
            assert(out@ =~= src@.subrange(0, i + 1));
        }
        i = i + 1;
    }
    proof {
        assert(src@.subrange(0, n as int) =~= src@);
    }
    out
}

/// Assemble a block from a fully filled reconstruction buffer; `None`
/// when a slot is still empty.
fn assemble_block(header: BlockHeader, txs: Vec<Option<Transaction>>) -> (r: Option<Block>)
    ensures
        (r is Some) <==> (forall|j: int| 0 <= j < txs@.len() ==> (#[trigger] txs@[j]) is Some),
        r matches Some(b) ==> {
            &&& b.header == header
            &&& b.transactions@.len() == txs@.len()
            &&& (forall|j: int|
                0 <= j < txs@.len() ==> ((#[trigger] txs@[j]) matches Some(t)
                    && b.transactions@[j] == t))
        },
{
    let n = txs.len();
    let mut i: usize = 0;
    while i < n
        invariant
            i <= n,
            n == txs@.len(),
            forall|j: int| 0 <= j < i ==> (#[trigger] txs@[j]) is Some,
        decreases n - i,
    {
        if !matches!(&txs[i], Some(_)) {
            return None;
        }
        i = i + 1;
    }
    let ghost txs0 = txs@;
    let mut src = txs;
    let mut body: Vec<Transaction> = Vec::new();
    let mut t: usize = 0;
    while t < n
        invariant
            t <= n,
            n == txs0.len(),
            body@.len() == t,
            src@.len() == n - t,
            forall|j: int| 0 <= j < n - t ==> #[trigger] src@[j] == txs0[j + t],
            forall|j: int| 0 <= j < n ==> (#[trigger] txs0[j]) is Some,
            forall|j: int|
                0 <= j < t ==> ((#[trigger] txs0[j]) matches Some(tx2) && body@[j] == tx2),
        decreases n - t,
    {
        let ghost src_before = src@;
        let slot = src.remove(0);
        proof {
            assert(slot == txs0[t as int]);
            assert(forall|j: int| 0 <= j < src@.len() ==> #[trigger] src@[j] == src_before[j + 1]);
        }
        match slot {
            Some(tx) => {
                body.push(tx);
            },
            None => {
                proof {
                    assert(false);
                }
            },
        }
        t = t + 1;
    }
    Some(Block { header, transactions: body })
}

/// Drive the compact-block reconstruction table with one event.
///
/// An announcement is dropped when the block is already known; its
/// proof of work is checked before any buffering, and a failure earns a
/// doubled strike. A reconstructible announcement is accepted at once;
/// otherwise it is buffered (evicting the oldest entry past the cap)
/// and the missing ids are requested. A transaction batch fills every
/// matching slot, and an entry whose missing set empties is removed and
/// its assembled block returned for acceptance. A tick expires entries
/// older than the time-to-live.
#[verifier::rlimit(60)]
pub fn compact_event(
    table: &mut KeyMap<Hash256, PendingCompact>,
    mempool: &Mempool,
    event: CompactEvent,
    now: u64,
) -> (r: Vec<CompactAction>)
    requires
        old(table).wf(),
        compact_table_ok(old(table)@),
        old(table).pairs().len() <= MAX_PENDING_COMPACTS,
        mempool.wf(),
        (event matches CompactEvent::Batch { txs } ==> forall|j: int|
            0 <= j < txs@.len() ==> crate::types::tx_encodable(#[trigger] txs@[j])),
    ensures
        final(table).wf(),
        compact_table_ok(final(table)@),
        final(table).pairs().len() <= MAX_PENDING_COMPACTS,
        // A known block is dropped without effect.
        ({
            event matches CompactEvent::Announce { already_known, .. } && already_known
                ==> final(table)@ == old(table)@ && r@.len() == 0
        }),
        // Bad proof of work is refused before any buffering, with a
        // doubled strike and nothing stored.
        ({
            event matches CompactEvent::Announce { header, already_known, .. }
                && !already_known && !spec_meets_difficulty(header)
                ==> final(table)@ == old(table)@ && r@.len() == 1 && r@[0] is PenalizeBadPow
        }),
        // A valid announcement yields exactly one action: immediate
        // acceptance, or a buffered entry and a request for what is
        // missing.
        ({
            event matches CompactEvent::Announce { header, short_txids, coinbase, already_known }
                ==> ((!already_known && spec_meets_difficulty(header)) ==> (r@.len() == 1 && (
            r@[0] matches CompactAction::Accept(b) ==> b.header == header
                && b.transactions@.len() == short_txids@.len() + 1 && b.transactions@[0]
                == coinbase) && (r@[0] matches CompactAction::RequestMissing(ids) ==> (ids@.len()
                >= 1 && (forall|q: int|
                0 <= q < ids@.len() ==> short_txids@.contains(#[trigger] ids@[q])
                    && !mempool.has_txid(ids@[q])) && final(table)@.dom().contains(
                spec_header_pow_hash(header),
            ) && final(table)@[spec_header_pow_hash(header)].header == header && final(table)@[spec_header_pow_hash(header)].created_at == now))))
        }),
        // A batch only fills or completes entries: no new ones appear,
        // and each accepted block corresponds to a removed entry.
        (event matches CompactEvent::Batch { .. } ==> {
            &&& (forall|k: Hash256|
                #[trigger] final(table)@.dom().contains(k) ==> old(table)@.dom().contains(k)
                    && final(table)@[k].header == old(table)@[k].header)
            &&& (forall|p: int|
                0 <= p < r@.len() ==> ((#[trigger] r@[p]) matches CompactAction::Accept(b) ==> old(table)@.dom().contains(crate::types::spec_header_pow_hash(b.header)) && !final(table)@.dom().contains(crate::types::spec_header_pow_hash(b.header))))
        }),
        // The tick drops exactly the entries past their time to live.
        (event is Tick ==> r@.len() == 0 && (forall|k: Hash256|
            #[trigger] final(table)@.dom().contains(k) <==> (old(table)@.dom().contains(k) && old(table)@[k].created_at + PENDING_COMPACT_TTL > now)) && (forall|k: Hash256|
            #[trigger] final(table)@.dom().contains(k) ==> final(table)@[k] == old(table)@[k])),
{
    let mut actions: Vec<CompactAction> = Vec::new();
    match event {
        CompactEvent::Announce { header, short_txids, coinbase, already_known } => {
            if already_known {
                return actions;
            }
            // Verify the proof of work before any reconstruction: a
            // compact block is a resource-exhaustion vector otherwise.
            let block_hash = header.hash();
            let lz = crate::hashes::leading_zero_bits(&block_hash);
            if lz < header.difficulty_target {
                actions.push(CompactAction::PenalizeBadPow);
                return actions;
            }
            // Build the buffer from the mempool; collect what is missing.
            let ghost cb = coinbase;
            let mut txs: Vec<Option<Transaction>> = Vec::new();
            txs.push(Some(coinbase));
            let mut missing: Vec<Hash256> = Vec::new();
            let nids = short_txids.len();
            let mut j: usize = 0;
            while j < nids
                invariant
                    j <= nids,
                    nids == short_txids@.len(),
                    mempool.wf(),
                    txs@.len() == j + 1,
                    txs@[0] matches Some(t0) && t0 == cb,
                    forall|q: int|
                        0 <= q < missing@.len() ==> short_txids@.contains(#[trigger] missing@[q])
                            && !mempool.has_txid(missing@[q]),
                    forall|q: int| 0 <= q < j ==> (#[trigger] txs@[q + 1]) is Some
                        || missing@.contains(short_txids@[q]),
                decreases nids - j,
            {
                let id = short_txids[j];
                let ghost txs_before = txs@;
                let ghost mb = missing@;
                match mempool.get_by_txid(&id) {
                    Some(t) => {
                        txs.push(Some(crate::types::clone_tx(t)));
                    },
                    None => {
                        txs.push(None);
                        missing.push(id);
                        proof {
                            assert(missing@.last() == short_txids@[j as int]);
                            assert(forall|q: int|
                                0 <= q < mb.len() ==> #[trigger] missing@[q] == mb[q]);
                        }
                    },
                }
                proof {
                    assert forall|q: int| 0 <= q < j + 1 implies ((#[trigger] txs@[q + 1]) is Some
                        || missing@.contains(short_txids@[q])) by {
                        if q < j {
                            assert(txs@[q + 1] == txs_before[q + 1]);
                            if !(txs_before[q + 1] is Some) {
                                let w = choose|w: int|
                                    0 <= w < mb.len() && mb[w] == short_txids@[q];
                                assert(missing@[w] == short_txids@[q]);
                            }
                        }
                    }
                }
                j = j + 1;
            }
            if missing.len() == 0 {
                proof {
                    assert forall|q: int| 0 <= q < txs@.len() implies (
                    #[trigger] txs@[q]) is Some by {
                        if q >= 1 {
                            assert(txs@[(q - 1) + 1] is Some || missing@.contains(
                                short_txids@[q - 1],
                            ));
                        }
                    }
                }
                let assembled = assemble_block(header, txs);
                match assembled {
                    Some(b) => {
                        actions.push(CompactAction::Accept(b));
                    },
                    None => {
                        proof {
                            assert(false);
                        }
                    },
                }
                return actions;
            }
            // Buffer the entry, evicting the oldest past the cap.
            if table.len() >= MAX_PENDING_COMPACTS {
                let pairs = table.entries();
                let np = pairs.len();
                let mut oldest: usize = 0;
                let mut k: usize = 1;
                while k < np
                    invariant
                        np == pairs@.len(),
                        np >= 1,
                        1 <= k <= np,
                        oldest < np,
                    decreases np - k,
                {
                    if pairs[k].1.created_at < pairs[oldest].1.created_at {
                        oldest = k;
                    }
                    k = k + 1;
                }
                let victim: Hash256 = pairs[oldest].0;
                let _ = table.remove(&victim);
            }
            let request = copy_hash_list(&missing);
            let entry = PendingCompact { header, txs, short_txids, missing, created_at: now };
            proof {
                assert(entry.wf());
            }
            table.insert(block_hash, entry);
            actions.push(CompactAction::RequestMissing(request));
            proof {
                assert(compact_table_ok(table@)) by {
                    assert forall|k2: Hash256| #[trigger] table@.dom().contains(k2) implies table@[
                    k2].wf() && crate::types::spec_header_pow_hash(table@[k2].header) == k2 by {
                        if k2 != block_hash {
                            assert(old(table)@.dom().contains(k2));
                        }
                    }
                }
            }
            actions
        },
        CompactEvent::Batch { txs } => {
            // Collect the keys, then feed every transaction to every
            // entry; completed entries leave the table as blocks.
            let ghost table0 = table@;
            let ntx = txs.len();
            let mut ti: usize = 0;
            while ti < ntx
                invariant
                    ti <= ntx,
                    ntx == txs@.len(),
                    mempool.wf(),
                    table.wf(),
                    compact_table_ok(table@),
                    table.pairs().len() <= MAX_PENDING_COMPACTS,
                    forall|j2: int|
                        0 <= j2 < txs@.len() ==> crate::types::tx_encodable(#[trigger] txs@[j2]),
                    forall|k: Hash256|
                        #[trigger] table@.dom().contains(k) ==> table0.dom().contains(k)
                            && table@[k].header == table0[k].header,
                    forall|p: int|
                        0 <= p < actions@.len() ==> ((#[trigger] actions@[p])
                            matches CompactAction::Accept(b) ==> table0.dom().contains(
                            crate::types::spec_header_pow_hash(b.header),
                        ) && !table@.dom().contains(
                            crate::types::spec_header_pow_hash(b.header),
                        )),
                decreases ntx - ti,
            {
                let tx = &txs[ti];
                let txid = tx.hash();
                // Visit every pending entry under this transaction.
                let mut keys: Vec<Hash256> = Vec::new();
                let npairs = table.entries().len();
                let mut p: usize = 0;
                while p < npairs
                    invariant
                        p <= npairs,
                        npairs == table.pairs().len(),
                        table.wf(),
                        keys@.len() == p,
                        forall|q: int|
                            0 <= q < p ==> #[trigger] keys@[q] == table.pairs()[q].0,
                    decreases npairs - p,
                {
                    keys.push(table.entries()[p].0);
                    p = p + 1;
                }
                let nk = keys.len();
                let mut ki: usize = 0;
                while ki < nk
                    invariant
                        ki <= nk,
                        nk == keys@.len(),
                        mempool.wf(),
                        table.wf(),
                        compact_table_ok(table@),
                        table.pairs().len() <= MAX_PENDING_COMPACTS,
                        crate::types::tx_encodable(txs@[ti as int]),
                        ti < ntx,
                        ntx == txs@.len(),
                        tx == &txs@[ti as int],
                        txid == crate::types::spec_txid(txs@[ti as int]),
                        forall|k: Hash256|
                            #[trigger] table@.dom().contains(k) ==> table0.dom().contains(k)
                                && table@[k].header == table0[k].header,
                        forall|p2: int|
                            0 <= p2 < actions@.len() ==> ((#[trigger] actions@[p2])
                                matches CompactAction::Accept(b) ==> table0.dom().contains(
                                crate::types::spec_header_pow_hash(b.header),
                            ) && !table@.dom().contains(
                                crate::types::spec_header_pow_hash(b.header),
                            )),
                    decreases nk - ki,
                {
                    let key = keys[ki];
                    let entry_opt = table.remove(&key);
                    match entry_opt {
                        Some(mut entry) => {
                            proof {
                                assert(table0.dom().contains(key));
                                assert(entry.wf());
                                assert(crate::types::spec_header_pow_hash(entry.header) == key);
                            }
                            entry.supply(&txid, tx);
                            if entry.is_complete() {
                                let assembled = assemble_block(entry.header, entry.txs);
                                match assembled {
                                    Some(b) => {
                                        proof {
                                            assert(crate::types::spec_header_pow_hash(b.header)
                                                == key);
                                        }
                                        actions.push(CompactAction::Accept(b));
                                    },
                                    None => {
                                        // A hole without a missing id:
                                        // the entry is dropped.
                                    },
                                }
                            } else {
                                table.insert(key, entry);
                                proof {
                                    assert(compact_table_ok(table@)) by {
                                        assert forall|k2: Hash256|
                                            #[trigger] table@.dom().contains(k2) implies table@[
                                        k2].wf() && crate::types::spec_header_pow_hash(
                                            table@[k2].header,
                                        ) == k2 by {}
                                    }
                                }
                            }
                        },
                        None => {},
                    }
                    ki = ki + 1;
                }
                ti = ti + 1;
            }
            actions
        },
        CompactEvent::Tick => {
            // Expire entries past their time to live.
            let ghost table0 = table@;
            let ghost pairs0 = table.pairs();
            let mut expired: Vec<Hash256> = Vec::new();
            let npairs = table.entries().len();
            let mut p: usize = 0;
            while p < npairs
                invariant
                    p <= npairs,
                    npairs == table.pairs().len(),
                    table.wf(),
                    table0 == table@,
                    pairs0 == table.pairs(),
                    forall|q: int|
                        0 <= q < expired@.len() ==> table0.dom().contains(#[trigger] expired@[q])
                            && table0[expired@[q]].created_at + PENDING_COMPACT_TTL <= now,
                    forall|q: int|
                        0 <= q < p ==> ((#[trigger] pairs0[q]).1.created_at
                            + PENDING_COMPACT_TTL <= now ==> expired@.contains(pairs0[q].0)),
                decreases npairs - p,
            {
                let fresh = (table.entries()[p].1.created_at as u128) + (
                PENDING_COMPACT_TTL as u128) > now as u128;
                if !fresh {
                    let ghost eb = expired@;
                    proof {
                        table.lemma_pair_in_view(p as int);
                    }
                    expired.push(table.entries()[p].0);
                    proof {
                        assert(expired@.last() == pairs0[p as int].0);
                        assert(forall|q: int|
                            0 <= q < eb.len() ==> #[trigger] expired@[q] == eb[q]);
                        assert forall|q: int|
                            0 <= q < p + 1 && (#[trigger] pairs0[q]).1.created_at
                                + PENDING_COMPACT_TTL <= now implies expired@.contains(
                            pairs0[q].0,
                        ) by {
                            if q < p {
                                let w = choose|w: int|
                                    0 <= w < eb.len() && eb[w] == pairs0[q].0;
                                assert(expired@[w] == pairs0[q].0);
                            } else {
                                assert(expired@[expired@.len() - 1] == pairs0[q].0);
                            }
                        }
                    }
                }
                p = p + 1;
            }
            let ne = expired.len();
            let mut e: usize = 0;
            while e < ne
                invariant
                    e <= ne,
                    ne == expired@.len(),
                    table.wf(),
                    compact_table_ok(table@),
                    table.pairs().len() <= MAX_PENDING_COMPACTS,
                    forall|q: int|
                        0 <= q < ne ==> table0.dom().contains(#[trigger] expired@[q])
                            && table0[expired@[q]].created_at + PENDING_COMPACT_TTL <= now,
                    forall|k: Hash256|
                        #[trigger] table@.dom().contains(k) ==> table0.dom().contains(k)
                            && table@[k] == table0[k],
                    forall|k: Hash256|
                        table0.dom().contains(k) && !table@.dom().contains(k) ==> exists|q: int|
                            0 <= q < e && (#[trigger] expired@[q]) == k,
                    forall|q: int| 0 <= q < e ==> !table@.dom().contains(#[trigger] expired@[q]),
                decreases ne - e,
            {
                let ghost before = table@;
                let _ = table.remove(&expired[e]);
                proof {
                    let ke = expired@[e as int];
                    assert forall|k: Hash256|
                        table0.dom().contains(k) && !table@.dom().contains(k) implies exists|
                        q: int,
                    |
                        0 <= q < e + 1 && (#[trigger] expired@[q]) == k by {
                        if k == ke {
                            assert(expired@[e as int] == k);
                        } else {
                            assert(!before.dom().contains(k));
                            let q0 = choose|q0: int|
                                0 <= q0 < e && (#[trigger] expired@[q0]) == k;
                            assert(expired@[q0] == k);
                        }
                    }
                }
                e = e + 1;
            }
            proof {
                // Surviving entries are exactly the fresh ones.
                assert forall|k: Hash256| #[trigger] table@.dom().contains(k) implies (
                table0.dom().contains(k) && table0[k].created_at + PENDING_COMPACT_TTL
                    > now) by {
                    if table0[k].created_at + PENDING_COMPACT_TTL <= now {
                        let q = choose|q: int|
                            0 <= q < pairs0.len() && (#[trigger] pairs0[q]).0 == k;
                        old(table).lemma_pair_in_view(q);
                        assert(pairs0[q].1 == table0[k]);
                        assert(expired@.contains(k));
                        let w = choose|w: int| 0 <= w < expired@.len() && expired@[w] == k;
                        assert(!table@.dom().contains(expired@[w]));
                        assert(false);
                    }
                }
                assert forall|k: Hash256|
                    table0.dom().contains(k) && table0[k].created_at + PENDING_COMPACT_TTL
                        > now implies #[trigger] table@.dom().contains(k) by {
                    if !table@.dom().contains(k) {
                        let q0 = choose|q0: int|
                            0 <= q0 < ne && (#[trigger] expired@[q0]) == k;
                        assert(table0[k].created_at + PENDING_COMPACT_TTL <= now);
                        assert(false);
                    }
                }
            }
            actions
        },
    }
}

} // verus!
