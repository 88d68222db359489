//! Transposition table: fixed-size, replace-if-deeper-or-same-key, with mate scores stored
//! relative to the node so they stay valid when the same position is reached at another ply.
use vstd::prelude::*;
use vstd::bits::{low_bits_mask, lemma_usize_low_bits_mask_is_mod, lemma_usize_shl_is_mul,
    lemma_usize_pow2_no_overflow};
use vstd::arithmetic::power2::{pow2, lemma_pow2_pos, lemma2_to64, lemma_pow2_adds};
use vstd::arithmetic::div_mod::lemma_mod_mod;
use shakmaty::Move;

use crate::MATE;
use crate::chess::clone_opt_move;

verus! {

/// Scores beyond this magnitude are mate scores.
pub const MATE_BOUND: i32 = MATE - 1000;

/// How a stored score relates to the true value of the position.
#[derive(Clone, Copy, PartialEq, Eq, Debug, Structural)]
pub enum Bound {
    Exact,
    Lower,
    Upper,
}

/// One slot of the table.
#[derive(Clone, Debug)]
pub struct Entry {
    pub key: u64,
    pub score: i32,
    pub depth: u8,
    pub bound: Bound,
    pub best: Option<Move>,
}

/// Mate scores are "plies from root"; stored, they count "plies from this node".
pub open spec fn spec_to_tt(score: int, ply: int) -> int {
    if score > MATE_BOUND {
        score + ply
    } else if score < -MATE_BOUND {
        score - ply
    } else {
        score
    }
}

/// A stored score read back at `ply`: "plies from this node" become "plies from root".
pub open spec fn spec_from_tt(score: int, ply: int) -> int {
    if score > MATE_BOUND {
        score - ply
    } else if score < -MATE_BOUND {
        score + ply
    } else {
        score
    }
}

pub open spec fn fits_i32(x: int) -> bool {
    i32::MIN <= x <= i32::MAX
}

/// Converts a root-relative score to the node-relative score that is stored.
pub fn to_tt(score: i32, ply: i32) -> (r: i32)
    requires
        fits_i32(spec_to_tt(score as int, ply as int)),
    ensures
        r == spec_to_tt(score as int, ply as int),
{
    if score > MATE_BOUND {
        score + ply
    } else if score < -MATE_BOUND {
        score - ply
    } else {
        score
    }
}

/// Converts a stored node-relative score back to a score relative to the root at `ply`.
pub fn from_tt(score: i32, ply: i32) -> (r: i32)
    requires
        fits_i32(spec_from_tt(score as int, ply as int)),
    ensures
        r == spec_from_tt(score as int, ply as int),
{
    if score > MATE_BOUND {
        score - ply
    } else if score < -MATE_BOUND {
        score + ply
    } else {
        score
    }
}

/// The slot of `key` in a table of `len` slots.
pub open spec fn slot_of(key: u64, len: int) -> int {
    (key as usize) as int % len
}

/// Keys share a slot exactly when they agree modulo the table size: in a table of `2^k`
/// slots, the slot of a key is the key modulo `2^k`.
pub proof fn lemma_slot_is_key_mod(key: u64, k: nat)
    requires
        k < usize::BITS,
    ensures
        slot_of(key, pow2(k) as int) == key as int % pow2(k) as int,
{
    lemma_pow2_pos(k);
    if usize::BITS == 64 {
        assert(key as usize as int == key as int);
    } else {
        assert((key as usize) as u64 == key & 0xffff_ffff) by (bit_vector)
            requires
                usize::BITS == 32,
        ;
        assert(key & 0xffff_ffff == key % 0x1_0000_0000) by (bit_vector);
        lemma2_to64();
        lemma_pow2_adds(k, (32 - k) as nat);
        lemma_mod_mod(key as int, pow2(k) as int, pow2((32 - k) as nat) as int);
    }
}

/// The depth as stored: capped at 255.
pub open spec fn capped_depth(depth: u32) -> u8 {
    if depth <= 255 {
        depth as u8
    } else {
        255u8
    }
}

/// Whether a store of `key` at `depth` with `bound` overwrites what the slot holds:
/// an empty slot, another key, a search at least as deep as the stored one (depths
/// compared as stored, capped at 255), or an exact bound.
pub open spec fn replaces(slot: Option<Entry>, key: u64, depth: u32, bound: Bound) -> bool {
    match slot {
        None => true,
        Some(e) => e.key != key || capped_depth(depth) >= e.depth || bound == Bound::Exact,
    }
}

/// The entry that a store writes.
pub open spec fn stored_entry(
    key: u64,
    depth: u32,
    score: i32,
    bound: Bound,
    best: Option<Move>,
    ply: i32,
) -> Entry {
    Entry {
        key,
        score: spec_to_tt(score as int, ply as int) as i32,
        depth: capped_depth(depth),
        bound,
        best,
    }
}

/// The slots after a store.
pub open spec fn after_store(
    slots: Seq<Option<Entry>>,
    key: u64,
    depth: u32,
    score: i32,
    bound: Bound,
    best: Option<Move>,
    ply: i32,
) -> Seq<Option<Entry>> {
    let i = slot_of(key, slots.len() as int);
    if replaces(slots[i], key, depth, bound) {
        slots.update(i, Some(stored_entry(key, depth, score, bound, best, ply)))
    } else {
        slots
    }
}

/// What a probe of `key` at `ply` returns.
pub open spec fn probe_of(slots: Seq<Option<Entry>>, key: u64, ply: i32) -> Option<Entry> {
    match slots[slot_of(key, slots.len() as int)] {
        Some(e) => if e.key == key {
            Some(
                Entry {
                    key: e.key,
                    score: spec_from_tt(e.score as int, ply as int) as i32,
                    depth: e.depth,
                    bound: e.bound,
                    best: e.best,
                },
            )
        } else {
            None
        },
        None => None,
    }
}

/// Whether a probe of `key` at `ply` can convert the stored score without overflow.
pub open spec fn probe_fits(slots: Seq<Option<Entry>>, key: u64, ply: i32) -> bool {
    match slots[slot_of(key, slots.len() as int)] {
        Some(e) => e.key == key ==> fits_i32(spec_from_tt(e.score as int, ply as int)),
        None => true,
    }
}

/// Reading a score back at the ply where it was stored gives the score that was
/// stored, at every ply from the root on (ply >= 0).
pub proof fn lemma_score_roundtrip(score: int, ply: int)
    requires
        0 <= ply,
    ensures
        spec_from_tt(spec_to_tt(score, ply), ply) == score,
{
}

/// A mate score keeps its distance to the mate across plies: stored at ply `p1` and read
/// at ply `p2`, a mate score moves by `p1 - p2`; any other score comes back unchanged.
pub proof fn lemma_mate_distance_kept(score: int, p1: int, p2: int)
    requires
        0 <= p1,
    ensures
        score > MATE_BOUND ==> spec_from_tt(spec_to_tt(score, p1), p2) == score + p1 - p2,
        score < -MATE_BOUND ==> spec_from_tt(spec_to_tt(score, p1), p2) == score - p1 + p2,
        -MATE_BOUND <= score <= MATE_BOUND ==> spec_from_tt(spec_to_tt(score, p1), p2) == score,
{
}

/// A probe of a key that was just stored (and whose store replaced the slot) reads back
/// that key's entry: the depth capped at 255, the bound and the move as stored, and the
/// score re-based from the storing ply to the probing ply; at the same ply, the very score.
pub proof fn lemma_probe_after_store(
    slots: Seq<Option<Entry>>,
    key: u64,
    depth: u32,
    score: i32,
    bound: Bound,
    best: Option<Move>,
    p1: i32,
    p2: i32,
)
    requires
        slots.len() > 0,
        replaces(slots[slot_of(key, slots.len() as int)], key, depth, bound),
        0 <= p1,
        fits_i32(spec_to_tt(score as int, p1 as int)),
    ensures
        probe_of(after_store(slots, key, depth, score, bound, best, p1), key, p2) == Some(
            Entry {
                key,
                score: spec_from_tt(spec_to_tt(score as int, p1 as int), p2 as int) as i32,
                depth: if depth <= 255 { depth as u8 } else { 255u8 },
                bound,
                best,
            },
        ),
        p1 == p2 ==> (probe_of(after_store(slots, key, depth, score, bound, best, p1), key, p2)
            matches Some(e) && e.score == score),
{
    let i = slot_of(key, slots.len() as int);
    assert(0 <= i < slots.len());
    lemma_score_roundtrip(score as int, p1 as int);
}

/// A probe only ever returns the entry of the key it asked for.
pub proof fn lemma_probe_same_key(slots: Seq<Option<Entry>>, key: u64, ply: i32)
    ensures
        probe_of(slots, key, ply) matches Some(e) ==> e.key == key,
{
}

/// A store leaves the probe of every key in another slot as it was.
pub proof fn lemma_store_other_slot(
    slots: Seq<Option<Entry>>,
    key: u64,
    depth: u32,
    score: i32,
    bound: Bound,
    best: Option<Move>,
    ply: i32,
    other: u64,
    p: i32,
)
    requires
        slots.len() > 0,
        slot_of(other, slots.len() as int) != slot_of(key, slots.len() as int),
    ensures
        probe_of(after_store(slots, key, depth, score, bound, best, ply), other, p) == probe_of(
            slots,
            other,
            p,
        ),
{
    let i = slot_of(key, slots.len() as int);
    let j = slot_of(other, slots.len() as int);
    assert(0 <= i < slots.len());
    assert(0 <= j < slots.len());
}

/// An entry of the same key searched deeper is not overwritten by a shallower search
/// with an inexact bound; an exact bound always overwrites.
pub proof fn lemma_replacement_policy(
    slots: Seq<Option<Entry>>,
    key: u64,
    depth: u32,
    score: i32,
    bound: Bound,
    best: Option<Move>,
    ply: i32,
)
    requires
        slots.len() > 0,
    ensures
        ({
            let i = slot_of(key, slots.len() as int);
            slots[i] matches Some(e) && e.key == key && capped_depth(depth) < e.depth && bound
                != Bound::Exact ==> after_store(slots, key, depth, score, bound, best, ply)
                == slots
        }),
        replaces(slots[slot_of(key, slots.len() as int)], key, depth, Bound::Exact),
{
}

/// After a clear, every probe misses.
pub proof fn lemma_probe_cleared(slots: Seq<Option<Entry>>, key: u64, ply: i32)
    requires
        slots.len() > 0,
        forall|i: int| 0 <= i < slots.len() ==> slots[i] is None,
    ensures
        probe_of(slots, key, ply) is None,
{
    let i = slot_of(key, slots.len() as int);
    assert(0 <= i < slots.len());
}

/// Every entry sits in the slot of its key.
pub open spec fn placed(slots: Seq<Option<Entry>>) -> bool {
    forall|i: int|
        0 <= i < slots.len() ==> (#[trigger] slots[i] matches Some(e) ==> slot_of(e.key, slots.len() as int) == i)
}

/// A table of `2^k` slots, indexed by the low bits of the key.
pub struct Table {
    entries: Vec<Option<Entry>>,
    mask: usize,
    log2: Ghost<nat>,
}

impl View for Table {
    type V = Seq<Option<Entry>>;

    closed spec fn view(&self) -> Seq<Option<Entry>> {
        self.entries@
    }
}

impl Table {
    /// The table's shape: `2^k` slots and the mask of the low `k` bits.
    pub closed spec fn wf(&self) -> bool {
        &&& self.log2@ < usize::BITS
        &&& self.mask == low_bits_mask(self.log2@)
        &&& self.entries@.len() == pow2(self.log2@)
        &&& placed(self.entries@)
    }

    /// A well-formed table has `2^k` slots, at least one, and holds each entry in the
    /// slot of its key.
    pub proof fn lemma_shape(&self)
        requires
            self.wf(),
        ensures
            self@.len() == pow2(self.size_log2()),
            self@.len() > 0,
            placed(self@),
    {
        lemma_pow2_pos(self.log2@);
    }

    /// The table has `2^k` slots.
    pub closed spec fn size_log2(&self) -> nat {
        self.log2@
    }

    proof fn lemma_slot(&self, key: u64)
        requires
            self.wf(),
        ensures
            self@.len() > 0,
            ((key as usize) & self.mask) as int == slot_of(key, self@.len() as int),
            0 <= slot_of(key, self@.len() as int) < self@.len(),
    {
        lemma_pow2_pos(self.log2@);
        lemma_usize_pow2_no_overflow(self.log2@);
        lemma_usize_low_bits_mask_is_mod(key as usize, self.log2@);
    }

    /// A table of `2^log2_size` empty slots (`log2_size` = 21 gives 2M entries, ~64 MB).
    pub fn new(log2_size: u32) -> (t: Table)
        requires
            log2_size < usize::BITS,
        ensures
            t.wf(),
            t.size_log2() == log2_size,
            t@.len() == pow2(log2_size as nat),
            forall|i: int| 0 <= i < t@.len() ==> t@[i] is None,
    {
        proof {
            lemma_usize_pow2_no_overflow(log2_size as nat);
            lemma_usize_shl_is_mul(1, log2_size as usize);
            lemma_pow2_pos(log2_size as nat);
        }
        let n = 1usize << log2_size;
        let mut entries: Vec<Option<Entry>> = Vec::new();
        let mut i: usize = 0;
        while i < n
            invariant
                i <= n,
                entries@.len() == i,
                forall|j: int| 0 <= j < i ==> entries@[j] is None,
            decreases n - i,
        {
            entries.push(None);
            i += 1;
        }
        Table { entries, mask: n - 1, log2: Ghost(log2_size as nat) }
    }

    /// Empties every slot.
    pub fn clear(&mut self)
        requires
            old(self).wf(),
        ensures
            final(self).wf(),
            final(self)@.len() == old(self)@.len(),
            final(self).size_log2() == old(self).size_log2(),
            forall|i: int| 0 <= i < final(self)@.len() ==> final(self)@[i] is None,
    {
        let n = self.entries.len();
        let mut fresh: Vec<Option<Entry>> = Vec::new();
        let mut i: usize = 0;
        while i < n
            invariant
                i <= n,
                fresh@.len() == i,
                forall|j: int| 0 <= j < i ==> fresh@[j] is None,
            decreases n - i,
        {
            fresh.push(None);
            i += 1;
        }
        self.entries = fresh;
    }

    /// The entry stored for `key`, its score made relative to the root at `ply`;
    /// `None` when the slot is empty or holds another key.
    pub fn probe(&self, key: u64, ply: i32) -> (r: Option<Entry>)
        requires
            self.wf(),
            probe_fits(self@, key, ply),
        ensures
            r == probe_of(self@, key, ply),
    {
        proof {
            self.lemma_slot(key);
        }
        let i = (key as usize) & self.mask;
        match &self.entries[i] {
            None => None,
            Some(e) => {
                if e.key != key {
                    None
                } else {
                    Some(
                        Entry {
                            key: e.key,
                            score: from_tt(e.score, ply),
                            depth: e.depth,
                            bound: e.bound,
                            best: clone_opt_move(&e.best),
                        },
                    )
                }
            },
        }
    }

    /// Stores a search result for `key`, unless the slot holds a deeper result for the
    /// same key with an inexact bound (see `replaces`).
    pub fn store(&mut self, key: u64, depth: u32, score: i32, bound: Bound, best: Option<Move>, ply: i32)
        requires
            old(self).wf(),
            fits_i32(spec_to_tt(score as int, ply as int)),
        ensures
            final(self).wf(),
            final(self)@ == after_store(old(self)@, key, depth, score, bound, best, ply),
            final(self).size_log2() == old(self).size_log2(),
    {
        proof {
            self.lemma_slot(key);
        }
        let i = (key as usize) & self.mask;
        let stored = if depth <= 255 { depth as u8 } else { 255u8 };
        let replace = match &self.entries[i] {
            None => true,
            Some(e) => e.key != key || stored >= e.depth || bound == Bound::Exact,
        };
        if replace {
            let e = Entry { key, score: to_tt(score, ply), depth: stored, bound, best };
            self.entries.set(i, Some(e));
        }
    }
}

} // verus!
