//! Three-level radix-tree page table (39-bit virtual addresses, 4096-byte
//! pages), with map / unmap / translate / set_flags operations.
//!
//! The tree is held as an arena: one growable vector of page-table words,
//! 512 words per table, table 0 the root. A valid non-leaf entry stores
//! the arena index of its child table in its page-number field; the frame
//! backing each table is kept alongside as an ownership token. New
//! intermediate tables are allocated from the frame allocator and are
//! zero-filled before they are linked, exactly as the hardware format
//! demands.

use vstd::prelude::*;

use crate::pfa::FrameAllocator;
use crate::pfa::PageFrame;

verus! {

/// Entries per table: 9 index bits per level.
pub const TABLE_ENTRIES: usize = 512;

/// Arena size limit: keeps every flat entry index inside `usize` and a
/// child index inside the page-number field of an entry. It is far
/// beyond any physically sensible table count.
pub const MAX_TABLES: usize = 0x10_0000;

/// Permission and status bits of a page-table entry.
#[derive(Clone, Copy)]
pub enum Flag {
    Valid,
    Read,
    Write,
    Execute,
    User,
    Global,
    Accessed,
    Dirty,
}

pub open spec fn spec_flag_bit(f: Flag) -> u64 {
    match f {
        Flag::Valid => 0x01,
        Flag::Read => 0x02,
        Flag::Write => 0x04,
        Flag::Execute => 0x08,
        Flag::User => 0x10,
        Flag::Global => 0x20,
        Flag::Accessed => 0x40,
        Flag::Dirty => 0x80,
    }
}

impl Flag {
    pub fn bit(&self) -> (r: u64)
        ensures
            r == spec_flag_bit(*self),
    {
        match self {
            Flag::Valid => 0x01,
            Flag::Read => 0x02,
            Flag::Write => 0x04,
            Flag::Execute => 0x08,
            Flag::User => 0x10,
            Flag::Global => 0x20,
            Flag::Accessed => 0x40,
            Flag::Dirty => 0x80,
        }
    }
}

/// An entry is a leaf exactly when it is valid and readable, writable or
/// executable; a valid entry without those bits points at a child table.
pub open spec fn spec_leaf_bits(bits: u64) -> bool {
    bits & 0x01 != 0 && bits & 0x0E != 0
}

/// A set of permission flags, packed as the low eight bits of an entry.
#[derive(Clone, Copy, PartialEq, Eq, Structural)]
pub struct FlagSet(pub u64);

impl FlagSet {
    pub open spec fn wf(self) -> bool {
        self.0 < 0x100
    }

    pub fn empty() -> (r: Self)
        ensures
            r.0 == 0,
            r.wf(),
    {
        FlagSet(0)
    }

    pub fn from_flag(flag: Flag) -> (r: Self)
        ensures
            r.0 == spec_flag_bit(flag),
            r.wf(),
    {
        FlagSet(flag.bit())
    }

    /// This set with one more flag raised.
    pub fn with(self, flag: Flag) -> (r: Self)
        requires
            self.wf(),
        ensures
            r.0 == self.0 | spec_flag_bit(flag),
            r.wf(),
    {
        let b = flag.bit();
        proof {
            let s = self.0;
            assert(s < 0x100 && b <= 0x80 ==> (s | b) < 0x100) by (bit_vector);
        }
        FlagSet(self.0 | b)
    }

    pub fn contains(&self, flag: Flag) -> (r: bool)
        ensures
            r == (self.0 & spec_flag_bit(flag) != 0),
    {
        self.0 & flag.bit() != 0
    }

    /// Whether an entry carrying these flags maps memory rather than
    /// pointing at a child table.
    pub fn is_leaf(&self) -> (r: bool)
        ensures
            r == spec_leaf_bits(self.0),
    {
        proof {
            let b = self.0;
            assert((b & 0x0E != 0) == (b & 0x02 != 0 || b & 0x04 != 0 || b & 0x08 != 0))
                by (bit_vector);
        }
        self.contains(Flag::Valid) && (self.contains(Flag::Read) || self.contains(Flag::Write)
            || self.contains(Flag::Execute))
    }
}

pub open spec fn pte_valid(word: u64) -> bool {
    word & 0x01 != 0
}

pub open spec fn pte_leaf(word: u64) -> bool {
    spec_leaf_bits(word)
}

pub open spec fn pte_ppn_of(word: u64) -> u64 {
    word >> 10
}

pub open spec fn pte_flags_of(word: u64) -> u64 {
    word & 0xFF
}

pub open spec fn pte_word(ppn: u64, flags: u64) -> u64 {
    (ppn << 10) | flags
}

pub proof fn lemma_pte_word_fields(ppn: u64, flags: u64)
    requires
        ppn < (1u64 << 54),
        flags < 0x100,
    ensures
        pte_ppn_of(pte_word(ppn, flags)) == ppn,
        pte_flags_of(pte_word(ppn, flags)) == flags,
        pte_valid(pte_word(ppn, flags)) == (flags & 0x01 != 0),
        (pte_word(ppn, flags) & 0x0E) == (flags & 0x0E),
{
    let w = pte_word(ppn, flags);
    assert((ppn << 10) | flags == w);
    assert(w >> 10 == ppn) by (bit_vector)
        requires
            ppn < (1u64 << 54),
            flags < 0x100,
            w == (ppn << 10) | flags,
    ;
    assert(w & 0xFF == flags) by (bit_vector)
        requires
            flags < 0x100,
            w == (ppn << 10) | flags,
    ;
    assert((w & 0x01 != 0) == (flags & 0x01 != 0)) by (bit_vector)
        requires
            w == (ppn << 10) | flags,
    ;
    assert(w & 0x0E == flags & 0x0E) by (bit_vector)
        requires
            w == (ppn << 10) | flags,
    ;
}

/// One page-table entry: a physical page number and a flag set packed
/// into a 64-bit word.
#[derive(Clone, Copy, PartialEq, Eq, Structural)]
pub struct Pte(pub u64);

impl Pte {
    pub fn new(ppn: u64, flags: FlagSet) -> (r: Self)
        requires
            ppn < (1u64 << 54),
            flags.wf(),
        ensures
            r.0 == pte_word(ppn, flags.0),
            pte_ppn_of(r.0) == ppn,
            pte_flags_of(r.0) == flags.0,
    {
        proof {
            lemma_pte_word_fields(ppn, flags.0);
        }
        Pte((ppn << 10) | flags.0)
    }

    /// The physical page number, if this entry is valid.
    pub fn ppn(&self) -> (r: Option<u64>)
        ensures
            pte_valid(self.0) ==> r == Some(pte_ppn_of(self.0)),
            !pte_valid(self.0) ==> r is None,
    {
        if self.0 & 0x01 != 0 {
            Some(self.0 >> 10)
        } else {
            None
        }
    }

    pub fn flags(&self) -> (r: FlagSet)
        ensures
            r.0 == pte_flags_of(self.0),
            r.wf(),
    {
        proof {
            let w = self.0;
            assert(w & 0xFF < 0x100) by (bit_vector);
        }
        FlagSet(self.0 & 0xFF)
    }
}

/// Depth at which a mapping terminates: a leaf at `Huge` covers 1 GiB,
/// at `Big` 2 MiB, at `Page` one 4 KiB page.
#[derive(Clone, Copy, PartialEq, Eq, Structural, Debug)]
pub enum MapLevel {
    Huge,
    Big,
    Page,
}

impl MapLevel {
    pub open spec fn spec_index(self) -> nat {
        match self {
            MapLevel::Huge => 2,
            MapLevel::Big => 1,
            MapLevel::Page => 0,
        }
    }

    /// Tree depth of this level; level 0 is the leaf (4 KiB) level.
    pub fn index(&self) -> (r: usize)
        ensures
            r == self.spec_index(),
    {
        match self {
            MapLevel::Huge => 2,
            MapLevel::Big => 1,
            MapLevel::Page => 0,
        }
    }

    /// The 9-bit slice of `vpn` that indexes a table at this level.
    pub fn get_index(&self, vpn: u64) -> (r: usize)
        ensures
            r == vpn_index(vpn, self.spec_index()),
            r < TABLE_ENTRIES,
    {
        proof {
            assert((vpn & 0x1ff) < 512 && ((vpn >> 9) & 0x1ff) < 512 && ((vpn >> 18) & 0x1ff)
                < 512) by (bit_vector);
        }
        match self {
            MapLevel::Huge => ((vpn >> 18) & 0x1ff) as usize,
            MapLevel::Big => ((vpn >> 9) & 0x1ff) as usize,
            MapLevel::Page => (vpn & 0x1ff) as usize,
        }
    }

    /// The level one step closer to the leaves, if any.
    pub fn next(&self) -> (r: Option<MapLevel>)
        ensures
            *self is Huge ==> r == Some(MapLevel::Big),
            *self is Big ==> r == Some(MapLevel::Page),
            *self is Page ==> r is None,
    {
        match self {
            MapLevel::Huge => Some(MapLevel::Big),
            MapLevel::Big => Some(MapLevel::Page),
            MapLevel::Page => None,
        }
    }
}

/// Table index taken from `vpn` at a given tree depth.
pub open spec fn vpn_index(vpn: u64, level: nat) -> int {
    if level == 0 {
        (vpn & 0x1ff) as int
    } else if level == 1 {
        ((vpn >> 9) & 0x1ff) as int
    } else {
        ((vpn >> 18) & 0x1ff) as int
    }
}

pub proof fn lemma_vpn_index_bounds(vpn: u64, level: nat)
    ensures
        0 <= vpn_index(vpn, level) < 512,
{
    assert((vpn & 0x1ff) < 512 && ((vpn >> 9) & 0x1ff) < 512 && ((vpn >> 18) & 0x1ff) < 512)
        by (bit_vector);
}

/// Page-number bits that a leaf at `level` takes from the virtual page
/// number instead of from the entry.
pub open spec fn level_mask(level: nat) -> u64 {
    if level == 0 {
        0
    } else if level == 1 {
        0x1ff
    } else {
        0x3ffff
    }
}

/// Physical page number produced by a leaf entry: the entry's page
/// number with its low bits replaced by the virtual page number's.
pub open spec fn combine_ppn(ppn: u64, vpn: u64, level: nat) -> u64 {
    (ppn & !level_mask(level)) | (vpn & level_mask(level))
}

/// At the 4 KiB level a leaf contributes its whole page number: the
/// round-trip law's arithmetic core, `map` at level 0 followed by
/// `translate` returns exactly the mapped page number.
pub proof fn lemma_combine_page_level(ppn: u64, vpn: u64)
    ensures
        combine_ppn(ppn, vpn, 0) == ppn,
{
    assert(((ppn & !0u64) | (vpn & 0u64)) == ppn) by (bit_vector);
}

/// Whether `w` lies inside the region a leaf for `vpn` at depth
/// `target` covers: the two virtual page numbers agree on every index
/// from the target level up to the root.
pub open spec fn covered_by(vpn: u64, w: u64, target: nat) -> bool {
    forall|l: nat| target <= l <= 2 ==> vpn_index(w, l) == vpn_index(vpn, l)
}

/// Typed errors of the page-table operations; all of them are
/// recoverable conditions reported to the caller.
#[derive(Clone, Copy, PartialEq, Eq, Structural, Debug)]
pub enum MapError {
    /// The requested slot, or a covering huge mapping above it, is
    /// already valid.
    AlreadyMapped,
    /// The physical page number is not aligned to the requested level's
    /// coverage.
    BadLevel,
    /// The frame allocator ran out of frames while building the path of
    /// intermediate tables.
    OutOfFrames,
    /// No leaf serves this virtual page number.
    NotMapped,
}


/// Number of valid entries in a stretch of page-table words.
pub open spec fn count_valid(s: Seq<u64>) -> int
    decreases s.len(),
{
    if s.len() == 0 {
        0
    } else {
        (if pte_valid(s.last()) {
            1int
        } else {
            0int
        }) + count_valid(s.drop_last())
    }
}

proof fn lemma_count_valid_push(s: Seq<u64>, w: u64)
    ensures
        count_valid(s.push(w)) == count_valid(s) + (if pte_valid(w) {
            1int
        } else {
            0int
        }),
{
    assert(s.push(w).drop_last() =~= s);
}

proof fn lemma_count_valid_update(s: Seq<u64>, i: int, w: u64)
    requires
        0 <= i < s.len(),
    ensures
        count_valid(s.update(i, w)) == count_valid(s) + (if pte_valid(w) {
            1int
        } else {
            0int
        }) - (if pte_valid(s[i]) {
            1int
        } else {
            0int
        }),
    decreases s.len(),
{
    if i == s.len() - 1 {
        assert(s.update(i, w).drop_last() =~= s.drop_last());
        assert(s.update(i, w).last() == w);
    } else {
        assert(s.update(i, w).drop_last() =~= s.drop_last().update(i, w));
        assert(s.update(i, w).last() == s.last());
        lemma_count_valid_update(s.drop_last(), i, w);
    }
}

/// The translation tree. The view is the flat sequence of entry words,
/// 512 per table; table 0 is the root.
pub struct PageTable {
    entries: Vec<u64>,
    frames: Vec<PageFrame>,
}

impl View for PageTable {
    type V = Seq<u64>;

    closed spec fn view(&self) -> Seq<u64> {
        self.entries@
    }
}

impl PageTable {
    pub closed spec fn table_count(self) -> int {
        self.frames@.len() as int
    }

    pub closed spec fn entry(self, t: int, i: int) -> u64 {
        self.entries@[t * 512 + i]
    }

    /// Structural soundness: the arena holds whole tables, at least the
    /// root; every child pointer lands inside the arena and not on the
    /// root; and no two entries share a child, so the reachable part of
    /// the arena is a tree.
    pub closed spec fn wf(self) -> bool {
        &&& self.entries@.len() == 512 * self.table_count()
        &&& 1 <= self.table_count() <= MAX_TABLES as int
        &&& forall|t: int, i: int|
            0 <= t < self.table_count() && 0 <= i < 512 && pte_valid(#[trigger] self.entry(t, i))
                && !pte_leaf(self.entry(t, i)) ==> 0 < pte_ppn_of(self.entry(t, i))
                < self.table_count()
        &&& forall|t1: int, i1: int, t2: int, i2: int|
            0 <= t1 < self.table_count() && 0 <= i1 < 512 && 0 <= t2 < self.table_count() && 0
                <= i2 < 512 && (t1 != t2 || i1 != i2) && pte_valid(#[trigger] self.entry(t1, i1))
                && !pte_leaf(self.entry(t1, i1)) && pte_valid(#[trigger] self.entry(t2, i2))
                && !pte_leaf(self.entry(t2, i2)) ==> pte_ppn_of(self.entry(t1, i1)) != pte_ppn_of(
                self.entry(t2, i2),
            )
    }

    /// Result of walking the tree for `vpn` starting at table `t`, `level`
    /// levels above the leaves.
    pub closed spec fn translate_from(self, t: int, vpn: u64, level: nat) -> Option<u64>
        decreases level,
    {
        let p = self.entry(t, vpn_index(vpn, level));
        if !pte_valid(p) {
            None
        } else if pte_leaf(p) {
            Some(combine_ppn(pte_ppn_of(p), vpn, level))
        } else if level == 0 {
            None
        } else {
            self.translate_from(pte_ppn_of(p) as int, vpn, (level - 1) as nat)
        }
    }

    /// The physical page number `vpn` translates to, if any.
    pub open spec fn spec_translate(self, vpn: u64) -> Option<u64> {
        self.translate_from(0, vpn, 2)
    }

    /// Flags of the leaf serving `vpn`, if any.
    pub closed spec fn flags_from(self, t: int, vpn: u64, level: nat) -> Option<u64>
        decreases level,
    {
        let p = self.entry(t, vpn_index(vpn, level));
        if !pte_valid(p) {
            None
        } else if pte_leaf(p) {
            Some(pte_flags_of(p))
        } else if level == 0 {
            None
        } else {
            self.flags_from(pte_ppn_of(p) as int, vpn, (level - 1) as nat)
        }
    }

    pub open spec fn spec_flags(self, vpn: u64) -> Option<u64> {
        self.flags_from(0, vpn, 2)
    }

    /// Whether a map request for `vpn` at depth `target` would find its
    /// slot, or a covering mapping above it, already taken.
    pub closed spec fn blocked_from(self, t: int, vpn: u64, level: nat, target: nat) -> bool
        decreases level,
    {
        let p = self.entry(t, vpn_index(vpn, level));
        if level == target {
            pte_valid(p)
        } else if !pte_valid(p) {
            false
        } else if pte_leaf(p) {
            true
        } else if level == 0 {
            false
        } else {
            self.blocked_from(pte_ppn_of(p) as int, vpn, (level - 1) as nat, target)
        }
    }

    /// Whether a map request for `vpn` at level `lvl` conflicts with an
    /// existing mapping.
    pub open spec fn spec_conflicts(self, vpn: u64, lvl: MapLevel) -> bool {
        self.blocked_from(0, vpn, 2, lvl.spec_index())
    }

    /// Whether flat entry position `j` lies on the walk for `vpn` from
    /// table `t`, `level` levels above the leaves, stopping at `target`.
    pub closed spec fn on_walk(self, t: int, vpn: u64, level: nat, target: nat, j: int) -> bool
        decreases level,
    {
        let pos = t * 512 + vpn_index(vpn, level);
        if j == pos {
            true
        } else if level == target || level == 0 {
            false
        } else {
            let p = self.entry(t, vpn_index(vpn, level));
            if pte_valid(p) && !pte_leaf(p) {
                self.on_walk(pte_ppn_of(p) as int, vpn, (level - 1) as nat, target, j)
            } else {
                false
            }
        }
    }

    /// The walk for `vpn` runs through valid non-leaf links down to
    /// `target` and finds a leaf there.
    pub closed spec fn leaf_at(self, t: int, vpn: u64, level: nat, target: nat) -> bool
        decreases level,
    {
        let p = self.entry(t, vpn_index(vpn, level));
        if level == target {
            pte_leaf(p)
        } else if level == 0 {
            false
        } else {
            pte_valid(p) && !pte_leaf(p) && self.leaf_at(
                pte_ppn_of(p) as int,
                vpn,
                (level - 1) as nat,
                target,
            )
        }
    }

    /// Number of intermediate tables a map request still has to create.
    pub closed spec fn needed_from(self, t: int, vpn: u64, level: nat, target: nat) -> int
        decreases level,
    {
        if level == target {
            0
        } else {
            let p = self.entry(t, vpn_index(vpn, level));
            if !pte_valid(p) {
                level - target
            } else if pte_leaf(p) {
                0
            } else if level == 0 {
                0
            } else {
                self.needed_from(pte_ppn_of(p) as int, vpn, (level - 1) as nat, target)
            }
        }
    }

    /// Number of frames a map request for `vpn` at level `lvl` would
    /// take from the frame allocator.
    pub open spec fn spec_tables_needed(self, vpn: u64, lvl: MapLevel) -> int {
        self.needed_from(0, vpn, 2, lvl.spec_index())
    }

    proof fn lemma_needed_bounds(self, t: int, vpn: u64, level: nat, target: nat)
        requires
            target <= level,
        ensures
            0 <= self.needed_from(t, vpn, level, target) <= level - target,
        decreases level,
    {
        if level != target {
            let p = self.entry(t, vpn_index(vpn, level));
            if pte_valid(p) && !pte_leaf(p) && level > 0 {
                self.lemma_needed_bounds(pte_ppn_of(p) as int, vpn, (level - 1) as nat, target);
            }
        }
    }

    /// A map request never needs more frames than the depth of the tree.
    pub proof fn lemma_tables_needed_bounds(self, vpn: u64, lvl: MapLevel)
        ensures
            0 <= self.spec_tables_needed(vpn, lvl) <= 2,
    {
        self.lemma_needed_bounds(0, vpn, 2, lvl.spec_index());
    }

    /// A fresh table: the root occupies the given frame, every entry
    /// invalid, so nothing translates.
    pub fn new(root_frame: PageFrame) -> (r: Self)
        ensures
            r.wf(),
            r.table_count() == 1,
            forall|vpn: u64| r.spec_translate(vpn) is None,
            forall|vpn: u64, lvl: MapLevel| !r.spec_conflicts(vpn, lvl),
    {
        let mut entries: Vec<u64> = Vec::new();
        let mut i: usize = 0;
        while i < TABLE_ENTRIES
            invariant
                i <= TABLE_ENTRIES,
                entries@.len() == i,
                forall|j: int| 0 <= j < i ==> entries@[j] == 0,
            decreases TABLE_ENTRIES - i,
        {
            entries.push(0);
            i += 1;
        }
        let mut frames: Vec<PageFrame> = Vec::new();
        frames.push(root_frame);
        let r = PageTable { entries, frames };
        proof {
            assert(0u64 & 0x01 == 0) by (bit_vector);
            assert forall|vpn: u64| r.spec_translate(vpn) is None by {
                lemma_vpn_index_bounds(vpn, 2);
                assert(r.entry(0, vpn_index(vpn, 2)) == 0);
            }
            assert forall|vpn: u64, lvl: MapLevel| !r.spec_conflicts(vpn, lvl) by {
                lemma_vpn_index_bounds(vpn, 2);
                assert(r.entry(0, vpn_index(vpn, 2)) == 0);
            }
        }
        r
    }

    fn read_entry(&self, t: usize, i: usize) -> (r: u64)
        requires
            self.wf(),
            t < self.table_count(),
            i < 512,
        ensures
            r == self.entry(t as int, i as int),
    {
        proof {
            assert(t as int * 512 + i < 512 * self.table_count() && t as int * 512 + i >= 0)
                by (nonlinear_arith)
                requires
                    t < self.table_count(),
                    i < 512,
            ;
        }
        self.entries[t * TABLE_ENTRIES + i]
    }

    fn write_entry(&mut self, t: usize, i: usize, word: u64)
        requires
            old(self).wf(),
            t < old(self).table_count(),
            i < 512,
        ensures
            final(self)@ == old(self)@.update(t as int * 512 + i, word),
            final(self).table_count() == old(self).table_count(),
            final(self).entry(t as int, i as int) == word,
            forall|t2: int, i2: int|
                0 <= t2 < final(self).table_count() && 0 <= i2 < 512 && (t2 != t || i2 != i)
                    ==> final(self).entry(t2, i2) == old(self).entry(t2, i2),
            count_valid(final(self)@) == count_valid(old(self)@) + (if pte_valid(word) {
                1int
            } else {
                0int
            }) - (if pte_valid(old(self).entry(t as int, i as int)) {
                1int
            } else {
                0int
            }),
    {
        proof {
            assert(t as int * 512 + i < 512 * self.table_count() && t as int * 512 + i >= 0)
                by (nonlinear_arith)
                requires
                    t < self.table_count(),
                    i < 512,
            ;
        }
        self.entries[t * TABLE_ENTRIES + i] = word;
        proof {
            lemma_count_valid_update(old(self)@, t as int * 512 + i, word);
            assert forall|t2: int, i2: int|
                0 <= t2 < self.table_count() && 0 <= i2 < 512 && (t2 != t as int || i2
                    != i as int) implies self.entry(t2, i2) == old(self).entry(t2, i2) by {
                lemma_flat_index_distinct(t as int, i as int, t2, i2);
            }
        }
    }

    /// Add one zero-filled table backed by `frame` at the end of the
    /// arena; returns its index. Nothing points at it yet.
    fn append_table(&mut self, frame: PageFrame) -> (t: usize)
        requires
            old(self).wf(),
            old(self).table_count() < MAX_TABLES as int,
        ensures
            final(self).wf(),
            t as int == old(self).table_count(),
            final(self).table_count() == old(self).table_count() + 1,
            final(self)@.len() == old(self)@.len() + 512,
            forall|j: int| 0 <= j < old(self)@.len() ==> final(self)@[j] == old(self)@[j],
            forall|i: int| 0 <= i < 512 ==> !pte_valid(#[trigger] final(self).entry(t as int, i)),
            forall|j: int| old(self)@.len() <= j < final(self)@.len() ==> final(self)@[j] == 0,
            forall|t2: int, i2: int|
                0 <= t2 < old(self).table_count() && 0 <= i2 < 512 ==> final(self).entry(t2, i2)
                    == old(self).entry(t2, i2),
            count_valid(final(self)@) == count_valid(old(self)@),
    {
        let t = self.frames.len();
        self.frames.push(frame);
        let mut i: usize = 0;
        while i < TABLE_ENTRIES
            invariant
                i <= TABLE_ENTRIES,
                self.entries@.len() == old(self).entries@.len() + i,
                self.frames@.len() == old(self).frames@.len() + 1,
                forall|j: int| 0 <= j < old(self)@.len() ==> self.entries@[j] == old(self)@[j],
                forall|j: int|
                    old(self)@.len() <= j < self.entries@.len() ==> self.entries@[j] == 0,
                count_valid(self.entries@) == count_valid(old(self)@),
            decreases TABLE_ENTRIES - i,
        {
            proof {
                assert(0u64 & 0x01 == 0) by (bit_vector);
                lemma_count_valid_push(self.entries@, 0);
            }
            self.entries.push(0);
            i += 1;
        }
        proof {
            let n = old(self).table_count();
            assert forall|t2: int, i2: int|
                0 <= t2 < n && 0 <= i2 < 512 implies self.entry(t2, i2) == old(self).entry(
                t2,
                i2,
            ) by {
                assert(t2 * 512 + i2 < 512 * n && t2 * 512 + i2 >= 0) by (nonlinear_arith)
                    requires
                        0 <= t2 < n,
                        0 <= i2 < 512,
                ;
            }
            assert forall|i2: int| 0 <= i2 < 512 implies !pte_valid(
                #[trigger] self.entry(n, i2),
            ) by {
                assert(512 * n <= n * 512 + i2 < 512 * (n + 1)) by (nonlinear_arith)
                    requires
                        0 <= i2 < 512,
                        n >= 0,
                ;
                assert(self.entry(n, i2) == 0);
                assert(!pte_valid(0u64)) by (bit_vector);
            }
            assert(self@.len() == 512 * self.table_count()) by (nonlinear_arith)
                requires
                    self@.len() == 512 * n + 512,
                    self.table_count() == n + 1,
            ;
            assert forall|ta: int, ia: int|
                0 <= ta < self.table_count() && 0 <= ia < 512 && pte_valid(
                    #[trigger] self.entry(ta, ia),
                ) && !pte_leaf(self.entry(ta, ia)) implies 0 < pte_ppn_of(self.entry(ta, ia))
                < self.table_count() by {
                if ta < n {
                    assert(self.entry(ta, ia) == old(self).entry(ta, ia));
                } else {
                    assert(!pte_valid(self.entry(ta, ia)));
                }
            }
            assert forall|t1: int, i1: int, t2: int, i2: int|
                0 <= t1 < self.table_count() && 0 <= i1 < 512 && 0 <= t2 < self.table_count() && 0
                    <= i2 < 512 && (t1 != t2 || i1 != i2) && pte_valid(
                    #[trigger] self.entry(t1, i1),
                ) && !pte_leaf(self.entry(t1, i1)) && pte_valid(
                    #[trigger] self.entry(t2, i2),
                ) && !pte_leaf(self.entry(t2, i2)) implies pte_ppn_of(self.entry(t1, i1))
                != pte_ppn_of(self.entry(t2, i2)) by {
                if t1 < n && t2 < n {
                    assert(self.entry(t1, i1) == old(self).entry(t1, i1));
                    assert(self.entry(t2, i2) == old(self).entry(t2, i2));
                } else if t1 >= n {
                    assert(!pte_valid(self.entry(t1, i1)));
                } else {
                    assert(!pte_valid(self.entry(t2, i2)));
                }
            }
        }
        t
    }


    /// Re-establish well-formedness after one entry is overwritten.
    proof fn lemma_wf_after_update(pre: Self, post: Self, t: int, i: int, word: u64)
        requires
            pre.wf(),
            post.table_count() == pre.table_count(),
            post.entries@.len() == pre.entries@.len(),
            0 <= t < pre.table_count(),
            0 <= i < 512,
            post.entry(t, i) == word,
            forall|t2: int, i2: int|
                0 <= t2 < pre.table_count() && 0 <= i2 < 512 && (t2 != t || i2 != i)
                    ==> post.entry(t2, i2) == pre.entry(t2, i2),
            pte_valid(word) && !pte_leaf(word) ==> 0 < pte_ppn_of(word) < pre.table_count(),
            pte_valid(word) && !pte_leaf(word) ==> forall|t2: int, i2: int|
                0 <= t2 < pre.table_count() && 0 <= i2 < 512 && (t2 != t || i2 != i) && pte_valid(
                    #[trigger] pre.entry(t2, i2),
                ) && !pte_leaf(pre.entry(t2, i2)) ==> pte_ppn_of(pre.entry(t2, i2)) != pte_ppn_of(
                    word,
                ),
        ensures
            post.wf(),
    {
        assert forall|ta: int, ia: int|
            0 <= ta < post.table_count() && 0 <= ia < 512 && pte_valid(
                #[trigger] post.entry(ta, ia),
            ) && !pte_leaf(post.entry(ta, ia)) implies 0 < pte_ppn_of(post.entry(ta, ia))
            < post.table_count() by {
            if ta != t || ia != i {
                assert(post.entry(ta, ia) == pre.entry(ta, ia));
            }
        }
        assert forall|t1: int, i1: int, t2: int, i2: int|
            0 <= t1 < post.table_count() && 0 <= i1 < 512 && 0 <= t2 < post.table_count() && 0
                <= i2 < 512 && (t1 != t2 || i1 != i2) && pte_valid(
                #[trigger] post.entry(t1, i1),
            ) && !pte_leaf(post.entry(t1, i1)) && pte_valid(#[trigger] post.entry(t2, i2))
            && !pte_leaf(post.entry(t2, i2)) implies pte_ppn_of(post.entry(t1, i1)) != pte_ppn_of(
            post.entry(t2, i2),
        ) by {
            if (t1 != t || i1 != i) && (t2 != t || i2 != i) {
                assert(post.entry(t1, i1) == pre.entry(t1, i1));
                assert(post.entry(t2, i2) == pre.entry(t2, i2));
            } else if t1 == t && i1 == i {
                assert(post.entry(t2, i2) == pre.entry(t2, i2));
            } else {
                assert(post.entry(t1, i1) == pre.entry(t1, i1));
            }
        }
    }

    /// Install the translation `vpn -> ppn` with `flag_bits` at depth
    /// `target`, starting the walk at `table`, `level` levels above the
    /// leaves, creating zeroed intermediate tables from `fa` on the way.
    #[verifier::rlimit(60)]
    fn map_rec(
        &mut self,
        fa: &mut FrameAllocator,
        table: usize,
        level: usize,
        target: usize,
        vpn: u64,
        ppn: u64,
        flag_bits: u64,
    ) -> (r: Result<(), MapError>)
        requires
            old(self).wf(),
            old(fa).wf(),
            table < old(self).table_count(),
            target <= level <= 2,
            old(self).table_count() + (level - target) <= MAX_TABLES as int,
            ppn < (1u64 << 54),
            flag_bits < 0x100,
            flag_bits & 0x0E != 0,
        ensures
            final(self).wf(),
            final(fa).wf(),
            final(self).table_count() >= old(self).table_count(),
            final(self)@.len() >= old(self)@.len(),
            forall|j: int|
                0 <= j < old(self)@.len() && pte_valid(#[trigger] old(self)@[j]) ==> final(self)@[j] == old(self)@[j],
            (r == Err::<(), MapError>(MapError::AlreadyMapped)) <==> old(self).blocked_from(
                table as int,
                vpn,
                level as nat,
                target as nat,
            ),
            r == Err::<(), MapError>(MapError::AlreadyMapped) ==> *final(self) == *old(self)
                && *final(fa) == *old(fa),
            r == Err::<(), MapError>(MapError::OutOfFrames) ==> final(fa)@.len() == 0,
            r is Ok <==> (!old(self).blocked_from(table as int, vpn, level as nat, target as nat)
                && old(fa)@.len() >= old(self).needed_from(
                table as int,
                vpn,
                level as nat,
                target as nat,
            )),
            r is Ok ==> final(self).translate_from(table as int, vpn, level as nat) == Some(
                combine_ppn(ppn, vpn, target as nat),
            ) && final(self).flags_from(table as int, vpn, level as nat) == Some(flag_bits | 0x01)
                && final(self).blocked_from(table as int, vpn, level as nat, target as nat)
                && final(fa)@ == old(fa)@.skip(
                old(self).needed_from(table as int, vpn, level as nat, target as nat),
            ) && final(self).table_count() == old(self).table_count() + old(self).needed_from(
                table as int,
                vpn,
                level as nat,
                target as nat,
            ),
            r is Ok ==> count_valid(final(self)@) == count_valid(old(self)@) + old(self).needed_from(table as int, vpn, level as nat, target as nat) + 1,
            r is Ok ==> forall|j: int|
                0 <= j < final(self)@.len() && !final(self).on_walk(
                    table as int,
                    vpn,
                    level as nat,
                    target as nat,
                    j,
                ) ==> (j < old(self)@.len() ==> final(self)@[j] == old(self)@[j]) && (j >= old(
                    self,
                )@.len() ==> final(self)@[j] == 0),
            r is Ok ==> final(self).leaf_at(table as int, vpn, level as nat, target as nat),
            r is Ok ==> forall|j: int|
                0 <= j < final(self)@.len() && final(self).on_walk(
                    table as int,
                    vpn,
                    level as nat,
                    target as nat,
                    j,
                ) && pte_valid(#[trigger] final(self)@[j]) && !pte_leaf(final(self)@[j]) && (j
                    >= old(self)@.len() || final(self)@[j] != old(self)@[j]) ==> pte_ppn_of(
                    final(self)@[j],
                ) >= old(self).table_count(),
            r is Ok || r == Err::<(), MapError>(MapError::AlreadyMapped) || r == Err::<(
            ), MapError>(MapError::OutOfFrames),
        decreases level,
    {
        let i = index_at(vpn, level);
        let p = self.read_entry(table, i);
        proof {
            assert((p & 0x01 != 0) == pte_valid(p));
            assert((p & 0x0E != 0) ==> (pte_valid(p) ==> pte_leaf(p)));
        }
        if level == target {
            if p & 0x01 != 0 {
                Err(MapError::AlreadyMapped)
            } else {
                let word = (ppn << 10) | flag_bits | 0x01;
                proof {
                    assert(flag_bits | 0x01 < 0x100 && (flag_bits | 0x01) & 0x01 != 0 && ((ppn
                        << 10) | flag_bits | 0x01) == (ppn << 10) | (flag_bits | 0x01) && (
                    flag_bits | 0x01) & 0x0E == flag_bits & 0x0E) by (bit_vector)
                        requires
                            flag_bits < 0x100,
                    ;
                    lemma_pte_word_fields(ppn, flag_bits | 0x01);
                }
                let ghost pre = *self;
                self.write_entry(table, i, word);
                proof {
                    Self::lemma_wf_after_update(pre, *self, table as int, i as int, word);
                    pre.lemma_entry_in_range(table as int, i as int);
                    assert(pte_valid(word) && pte_leaf(word));
                    assert(self.translate_from(table as int, vpn, level as nat) == Some(
                        combine_ppn(ppn, vpn, target as nat),
                    ));
                    assert(self.flags_from(table as int, vpn, level as nat) == Some(
                        flag_bits | 0x01,
                    ));
                    assert forall|j: int|
                        0 <= j < self@.len() && !self.on_walk(
                            table as int,
                            vpn,
                            level as nat,
                            target as nat,
                            j,
                        ) implies self@[j] == pre@[j] by {
                        assert(j != table as int * 512 + i);
                    }
                }
                Ok(())
            }
        } else {
            if p & 0x01 != 0 {
                if p & 0x0E != 0 {
                    Err(MapError::AlreadyMapped)
                } else {
                    let child = (p >> 10) as usize;
                    let r = self.map_rec(fa, child, level - 1, target, vpn, ppn, flag_bits);
                    proof {
                        old(self).lemma_entry_in_range(table as int, i as int);
                        assert(final(self)@[table as int * 512 + i] == p);
                        assert(final(self).entry(table as int, i as int) == p);
                        if r is Ok {
                            assert forall|j: int|
                                0 <= j < final(self)@.len() && !final(self).on_walk(
                                    table as int,
                                    vpn,
                                    level as nat,
                                    target as nat,
                                    j,
                                ) implies (j < old(self)@.len() ==> final(self)@[j] == old(
                                self,
                            )@[j]) && (j >= old(self)@.len() ==> final(self)@[j] == 0) by {
                                assert(j != table as int * 512 + i);
                                assert(!final(self).on_walk(
                                    child as int,
                                    vpn,
                                    (level - 1) as nat,
                                    target as nat,
                                    j,
                                ));
                            }
                        }
                    }
                    r
                }
            } else {
                match fa.alloc_page() {
                    None => {
                        proof {
                            assert(old(fa)@.len() == 0);
                        }
                        Err(MapError::OutOfFrames)
                    },
                    Some(frame) => {
                        let ghost pre = *self;
                        let ghost fa_mid = *fa;
                        let child = self.append_table(frame);
                        let word = ((child as u64) << 10) | 0x01;
                        proof {
                            assert(0x01u64 < 0x100 && 0x01u64 & 0x01 != 0 && 0x01u64 & 0x0E == 0)
                                by (bit_vector);
                            assert(0x10_0000u64 < (1u64 << 54)) by (bit_vector);
                            lemma_pte_word_fields(child as u64, 0x01);
                            assert(pte_valid(word) && !pte_leaf(word));
                        }
                        let ghost mid = *self;
                        self.write_entry(table, i, word);
                        proof {
                            assert forall|t2: int, i2: int|
                                0 <= t2 < mid.table_count() && 0 <= i2 < 512 && (t2 != table as int
                                    || i2 != i as int) && pte_valid(#[trigger] mid.entry(t2, i2))
                                && !pte_leaf(mid.entry(t2, i2)) implies pte_ppn_of(
                                mid.entry(t2, i2),
                            ) != pte_ppn_of(word) by {
                                if t2 < pre.table_count() {
                                    assert(mid.entry(t2, i2) == pre.entry(t2, i2));
                                } else {
                                    assert(!pte_valid(mid.entry(t2, i2)));
                                }
                            }
                            Self::lemma_wf_after_update(mid, *self, table as int, i as int, word);
                            mid.lemma_entry_in_range(table as int, i as int);
                            assert forall|i2: int|
                                0 <= i2 < 512 implies self.entry(child as int, i2) == mid.entry(
                                child as int,
                                i2,
                            ) && !pte_valid(self.entry(child as int, i2)) by {
                                lemma_flat_index_distinct(table as int, i as int, child as int, i2);
                            }
                        }
                        let ghost s2 = *self;
                        let r = self.map_rec(fa, child, level - 1, target, vpn, ppn, flag_bits);
                        proof {
                            lemma_vpn_index_bounds(vpn, (level - 1) as nat);
                            assert(!s2.blocked_from(
                                child as int,
                                vpn,
                                (level - 1) as nat,
                                target as nat,
                            ));
                            assert(s2.needed_from(child as int, vpn, (level - 1) as nat, target as nat)
                                == level - 1 - target);
                            s2.lemma_entry_in_range(table as int, i as int);
                            assert(final(self)@[table as int * 512 + i] == word);
                            assert(final(self).entry(table as int, i as int) == word);
                            if r is Ok {
                                assert(final(fa)@ =~= old(fa)@.skip((level - target) as int));
                            }
                            assert forall|j: int|
                                0 <= j < old(self)@.len() && pte_valid(
                                    #[trigger] old(self)@[j],
                                ) implies final(self)@[j] == old(self)@[j] by {
                                assert(s2@[j] == old(self)@[j]) by {
                                    if j != table as int * 512 + i {
                                        assert(mid@[j] == pre@[j]);
                                    }
                                }
                            }
                            if r is Ok {
                                assert forall|j: int|
                                    0 <= j < final(self)@.len() && !final(self).on_walk(
                                        table as int,
                                        vpn,
                                        level as nat,
                                        target as nat,
                                        j,
                                    ) implies (j < old(self)@.len() ==> final(self)@[j] == old(
                                    self,
                                )@[j]) && (j >= old(self)@.len() ==> final(self)@[j] == 0) by {
                                    assert(j != table as int * 512 + i);
                                    assert(!final(self).on_walk(
                                        child as int,
                                        vpn,
                                        (level - 1) as nat,
                                        target as nat,
                                        j,
                                    ));
                                    if j < s2@.len() {
                                        assert(final(self)@[j] == s2@[j]);
                                        if j < old(self)@.len() {
                                            assert(mid@[j] == pre@[j]);
                                            assert(s2@[j] == mid@[j]);
                                        } else {
                                            assert(mid@[j] == 0);
                                            assert(s2@[j] == mid@[j]);
                                        }
                                    }
                                }
                            }
                        }
                        r
                    },
                }
            }
        }
    }

    /// A walk that reaches a leaf is untouched by growth that only
    /// fills previously-invalid entries and appends tables.
    proof fn lemma_translate_preserved(pre: Self, post: Self, t: int, w: u64, level: nat)
        requires
            pre.wf(),
            0 <= t < pre.table_count(),
            pre.table_count() <= post.table_count(),
            post@.len() >= pre@.len(),
            forall|j: int| 0 <= j < pre@.len() && pte_valid(#[trigger] pre@[j]) ==> post@[j]
                == pre@[j],
            pre.translate_from(t, w, level) is Some,
        ensures
            post.translate_from(t, w, level) == pre.translate_from(t, w, level),
        decreases level,
    {
        let i = vpn_index(w, level);
        lemma_vpn_index_bounds(w, level);
        pre.lemma_entry_in_range(t, i);
        let p = pre.entry(t, i);
        assert(pte_valid(p));
        assert(post@[t * 512 + i] == p);
        assert(post.entry(t, i) == p);
        if !pte_leaf(p) {
            Self::lemma_translate_preserved(pre, post, pte_ppn_of(p) as int, w, (level - 1) as nat);
        }
    }

    /// A walk cannot tell two states apart whose entries agree on
    /// validity, leafness and page number everywhere.
    proof fn lemma_translate_flags_only(pre: Self, post: Self, t: int, w: u64, level: nat)
        requires
            pre.wf(),
            0 <= t < pre.table_count(),
            post.table_count() == pre.table_count(),
            post@.len() == pre@.len(),
            forall|j: int|
                0 <= j < pre@.len() ==> pte_valid(#[trigger] post@[j]) == pte_valid(pre@[j])
                    && pte_leaf(post@[j]) == pte_leaf(pre@[j]) && pte_ppn_of(post@[j])
                    == pte_ppn_of(pre@[j]),
        ensures
            post.translate_from(t, w, level) == pre.translate_from(t, w, level),
        decreases level,
    {
        let i = vpn_index(w, level);
        lemma_vpn_index_bounds(w, level);
        pre.lemma_entry_in_range(t, i);
        let p = pre.entry(t, i);
        let q = post.entry(t, i);
        assert(q == post@[t * 512 + i]);
        if pte_valid(p) && !pte_leaf(p) && level > 0 {
            Self::lemma_translate_flags_only(
                pre,
                post,
                pte_ppn_of(p) as int,
                w,
                (level - 1) as nat,
            );
        }
    }

    /// Tree growth that only fills slots on `vpn`'s walk cannot change
    /// what a table off that walk translates: every entry the walk for
    /// `w` reads below `t` is identical in the two states.
    #[verifier::rlimit(80)]
    proof fn lemma_untouched_subtree(
        pre: Self,
        post: Self,
        vpn: u64,
        k: nat,
        t: int,
        w: u64,
        level: nat,
    )
        requires
            pre.wf(),
            post.wf(),
            k <= 2,
            pre.table_count() <= post.table_count(),
            pre@.len() <= post@.len(),
            forall|j: int|
                0 <= j < post@.len() && !post.on_walk(0, vpn, 2, k, j) ==> (j < pre@.len()
                    ==> post@[j] == pre@[j]) && (j >= pre@.len() ==> post@[j] == 0),
            forall|j: int| 0 <= j < pre@.len() && pte_valid(#[trigger] pre@[j]) ==> post@[j] == pre@[j],
            forall|j: int|
                0 <= j < post@.len() && post.on_walk(0, vpn, 2, k, j) && pte_valid(
                    #[trigger] post@[j],
                ) && !pte_leaf(post@[j]) && (j >= pre@.len() || post@[j] != pre@[j])
                    ==> pte_ppn_of(post@[j]) >= pre.table_count(),
            post.leaf_at(0, vpn, 2, k),
            level <= 1,
            1 <= t < pre.table_count(),
            forall|i: int| 0 <= i < 512 ==> !(#[trigger] post.on_walk(0, vpn, 2, k, t * 512 + i)),
        ensures
            post.translate_from(t, w, level) == pre.translate_from(t, w, level),
        decreases level,
    {
        lemma_vpn_index_bounds(w, level);
        let iw = vpn_index(w, level);
        let pos = t * 512 + iw;
        pre.lemma_entry_in_range(t, iw);
        assert(!post.on_walk(0, vpn, 2, k, pos));
        assert(post@[pos] == pre@[pos]);
        assert(post.entry(t, iw) == pre.entry(t, iw));
        let p = pre.entry(t, iw);
        if pte_valid(p) && !pte_leaf(p) && level == 1 {
            let c = pte_ppn_of(p) as int;
            assert(1 <= c < pre.table_count());
            Self::lemma_subtree_stays_off_walk(pre, post, vpn, k, t, iw, c);
            Self::lemma_untouched_subtree(pre, post, vpn, k, c, w, 0);
            assert(post.translate_from(t, w, 1) == post.translate_from(c, w, 0));
            assert(pre.translate_from(t, w, 1) == pre.translate_from(c, w, 0));
        }
    }

    /// The child an untouched old entry points at has no position on
    /// `vpn`'s walk either.
    #[verifier::rlimit(80)]
    proof fn lemma_subtree_stays_off_walk(
        pre: Self,
        post: Self,
        vpn: u64,
        k: nat,
        t: int,
        iw: int,
        c: int,
    )
        requires
            pre.wf(),
            post.wf(),
            k <= 2,
            pre.table_count() <= post.table_count(),
            pre@.len() <= post@.len(),
            forall|j: int|
                0 <= j < post@.len() && !post.on_walk(0, vpn, 2, k, j) ==> (j < pre@.len()
                    ==> post@[j] == pre@[j]) && (j >= pre@.len() ==> post@[j] == 0),
            forall|j: int| 0 <= j < pre@.len() && pte_valid(#[trigger] pre@[j]) ==> post@[j] == pre@[j],
            forall|j: int|
                0 <= j < post@.len() && post.on_walk(0, vpn, 2, k, j) && pte_valid(
                    #[trigger] post@[j],
                ) && !pte_leaf(post@[j]) && (j >= pre@.len() || post@[j] != pre@[j])
                    ==> pte_ppn_of(post@[j]) >= pre.table_count(),
            post.leaf_at(0, vpn, 2, k),
            0 <= t < pre.table_count(),
            0 <= iw < 512,
            !post.on_walk(0, vpn, 2, k, t * 512 + iw),
            pte_valid(pre.entry(t, iw)),
            !pte_leaf(pre.entry(t, iw)),
            c == pte_ppn_of(pre.entry(t, iw)) as int,
        ensures
            forall|i: int| 0 <= i < 512 ==> !(#[trigger] post.on_walk(0, vpn, 2, k, c * 512 + i)),
    {
        lemma_vpn_index_bounds(vpn, 2);
        lemma_vpn_index_bounds(vpn, 1);
        lemma_vpn_index_bounds(vpn, 0);
        let iv2 = vpn_index(vpn, 2);
        pre.lemma_entry_in_range(t, iw);
        pre.lemma_entry_in_range(0, iv2);
        assert(1 <= c < pre.table_count());
        assert forall|i: int| 0 <= i < 512 implies !(#[trigger] post.on_walk(
            0,
            vpn,
            2,
            k,
            c * 512 + i,
        )) by {
            let j = c * 512 + i;
            assert(j >= 512) by (nonlinear_arith)
                requires
                    c >= 1,
                    i >= 0,
                    j == c * 512 + i,
            ;
            assert(j != iv2);
            if k != 2 {
                let e2 = post.entry(0, iv2);
                assert(pte_valid(e2) && !pte_leaf(e2));
                let t1 = pte_ppn_of(e2) as int;
                assert(post.leaf_at(t1, vpn, 1, k));
                assert(c != t1) by {
                    if post@[iv2] == pre@[iv2] {
                        assert(pre.entry(0, iv2) == e2);
                        if t == 0 && iw == iv2 {
                            assert(post.on_walk(0, vpn, 2, k, t * 512 + iw));
                        } else {
                            assert(pte_ppn_of(pre.entry(0, iv2)) != pte_ppn_of(pre.entry(t, iw)));
                        }
                    } else {
                        assert(post.on_walk(0, vpn, 2, k, iv2));
                        assert(pte_valid(post@[iv2]));
                        assert(pte_ppn_of(post@[iv2]) >= pre.table_count());
                    }
                }
                let iv1 = vpn_index(vpn, 1);
                let pos1 = t1 * 512 + iv1;
                assert(j != pos1) by {
                    lemma_flat_index_distinct(c, i, t1, iv1);
                }
                if k == 0 {
                    post.lemma_entry_in_range(t1, iv1);
                    let e1 = post.entry(t1, iv1);
                    assert(pte_valid(e1) && !pte_leaf(e1));
                    assert(post.on_walk(t1, vpn, 1, k, pos1));
                    assert(post.on_walk(0, vpn, 2, k, pos1));
                    let t0 = pte_ppn_of(e1) as int;
                    assert(c != t0) by {
                        if pos1 < pre@.len() && post@[pos1] == pre@[pos1] {
                            assert(t1 < pre.table_count()) by (nonlinear_arith)
                                requires
                                    pos1 == t1 * 512 + iv1,
                                    0 <= iv1 < 512,
                                    pos1 < 512 * pre.table_count(),
                                    t1 >= 0,
                            ;
                            pre.lemma_entry_in_range(t1, iv1);
                            assert(pre.entry(t1, iv1) == e1);
                            if t1 == t && iv1 == iw {
                                assert(post.on_walk(0, vpn, 2, k, t * 512 + iw));
                            } else {
                                assert(pte_ppn_of(pre.entry(t1, iv1)) != pte_ppn_of(
                                    pre.entry(t, iw),
                                ));
                            }
                        } else {
                            assert(pte_valid(post@[pos1]));
                            assert(pte_ppn_of(post@[pos1]) >= pre.table_count());
                        }
                    }
                    let iv0 = vpn_index(vpn, 0);
                    assert(j != t0 * 512 + iv0) by {
                        lemma_flat_index_distinct(c, i, t0, iv0);
                    }
                    assert(!post.on_walk(t0, vpn, 0, k, j));
                    assert(!post.on_walk(t1, vpn, 1, k, j));
                } else {
                    assert(!post.on_walk(t1, vpn, 1, k, j));
                }
            }
        }
    }

    /// A successful map changes no translation outside the region the
    /// new mapping covers: the walk for any such `w` diverges from
    /// `vpn`'s walk at some level, lands off the written path, and from
    /// there reads only entries the operation left alone (old entries
    /// unchanged, fresh tables still zero).
    #[verifier::rlimit(100)]
    proof fn lemma_off_coverage_preserved(pre: Self, post: Self, vpn: u64, k: nat, w: u64)
        requires
            pre.wf(),
            post.wf(),
            k <= 2,
            pre.table_count() <= post.table_count(),
            pre@.len() <= post@.len(),
            forall|j: int|
                0 <= j < post@.len() && !post.on_walk(0, vpn, 2, k, j) ==> (j < pre@.len()
                    ==> post@[j] == pre@[j]) && (j >= pre@.len() ==> post@[j] == 0),
            forall|j: int| 0 <= j < pre@.len() && pte_valid(#[trigger] pre@[j]) ==> post@[j] == pre@[j],
            forall|j: int|
                0 <= j < post@.len() && post.on_walk(0, vpn, 2, k, j) && pte_valid(
                    #[trigger] post@[j],
                ) && !pte_leaf(post@[j]) && (j >= pre@.len() || post@[j] != pre@[j])
                    ==> pte_ppn_of(post@[j]) >= pre.table_count(),
            post.leaf_at(0, vpn, 2, k),
            !covered_by(vpn, w, k),
        ensures
            post.translate_from(0, w, 2) == pre.translate_from(0, w, 2),
    {
        lemma_vpn_index_bounds(vpn, 2);
        lemma_vpn_index_bounds(vpn, 1);
        lemma_vpn_index_bounds(vpn, 0);
        lemma_vpn_index_bounds(w, 2);
        lemma_vpn_index_bounds(w, 1);
        lemma_vpn_index_bounds(w, 0);
        let dl = choose|l: nat| k <= l <= 2 && vpn_index(w, l) != vpn_index(vpn, l);
        let iv2 = vpn_index(vpn, 2);
        let iv1 = vpn_index(vpn, 1);
        let iv0 = vpn_index(vpn, 0);
        let iw2 = vpn_index(w, 2);
        let iw1 = vpn_index(w, 1);
        let iw0 = vpn_index(w, 0);
        pre.lemma_entry_in_range(0, iw2);
        pre.lemma_entry_in_range(0, iv2);
        if iw2 != iv2 {
            // the walks diverge at the root: w reads an untouched slot
            assert(!post.on_walk(0, vpn, 2, k, iw2)) by {
                if k != 2 {
                    let e2 = post.entry(0, iv2);
                    assert(pte_valid(e2) && !pte_leaf(e2));
                    let t1 = pte_ppn_of(e2) as int;
                    post.lemma_entry_in_range(0, iv2);
                    assert(1 <= t1 < post.table_count());
                    Self::lemma_on_walk_below(post, t1, vpn, 1, k, iw2);
                }
            }
            assert(post@[iw2] == pre@[iw2]);
            assert(post.entry(0, iw2) == pre.entry(0, iw2));
            let p = pre.entry(0, iw2);
            if pte_valid(p) && !pte_leaf(p) {
                let c1 = pte_ppn_of(p) as int;
                Self::lemma_subtree_stays_off_walk(pre, post, vpn, k, 0, iw2, c1);
                Self::lemma_untouched_subtree(pre, post, vpn, k, c1, w, 1);
                assert(post.translate_from(0, w, 2) == post.translate_from(c1, w, 1));
                assert(pre.translate_from(0, w, 2) == pre.translate_from(c1, w, 1));
            }
        } else {
            // w follows vpn's walk at the root; it must diverge below
            assert(dl != 2);
            assert(k <= 1);
            let e2post = post.entry(0, iv2);
            assert(pte_valid(e2post) && !pte_leaf(e2post));
            let t1 = pte_ppn_of(e2post) as int;
            post.lemma_entry_in_range(0, iv2);
            assert(1 <= t1 < post.table_count());
            assert(post.leaf_at(t1, vpn, 1, k));
            assert(post.translate_from(0, w, 2) == post.translate_from(t1, w, 1));
            let e2pre = pre.entry(0, iv2);
            if !pte_valid(e2pre) {
                // the root slot was filled by the map: everything below
                // is freshly built, and w leaves the written path into
                // zero entries
                assert(pre.translate_from(0, w, 2) is None);
                assert(post@[iv2] != pre@[iv2]);
                assert(post.on_walk(0, vpn, 2, k, iv2));
                assert(pte_valid(post@[iv2]));
                assert(t1 >= pre.table_count());
                post.lemma_entry_in_range(t1, iw1);
                let posw1 = t1 * 512 + iw1;
                assert(posw1 >= pre@.len()) by (nonlinear_arith)
                    requires
                        t1 >= pre.table_count(),
                        pre@.len() == 512 * pre.table_count(),
                        iw1 >= 0,
                        posw1 == t1 * 512 + iw1,
                ;
                if iw1 != iv1 {
                    assert(!post.on_walk(0, vpn, 2, k, posw1)) by {
                        assert(posw1 != iv2);
                        lemma_flat_index_distinct(t1, iw1, t1, iv1);
                        if k == 0 {
                            post.lemma_entry_in_range(t1, iv1);
                            let e1 = post.entry(t1, iv1);
                            assert(pte_valid(e1) && !pte_leaf(e1));
                            assert(post.on_walk(t1, vpn, 1, k, t1 * 512 + iv1));
                            assert(post.on_walk(0, vpn, 2, k, t1 * 512 + iv1));
                            let t0 = pte_ppn_of(e1) as int;
                            assert(t0 != t1) by {
                                if iv2 != t1 * 512 + iv1 {
                                    assert(pte_ppn_of(post.entry(0, iv2)) != pte_ppn_of(
                                        post.entry(t1, iv1),
                                    ));
                                }
                            }
                            lemma_flat_index_distinct(t1, iw1, t0, iv0);
                            assert(!post.on_walk(t0, vpn, 0, k, posw1));
                            assert(!post.on_walk(t1, vpn, 1, k, posw1));
                        } else {
                            assert(!post.on_walk(t1, vpn, 1, k, posw1));
                        }
                    }
                    assert(post@[posw1] == 0);
                    assert(post.entry(t1, iw1) == 0);
                    assert(!pte_valid(0u64)) by (bit_vector);
                    assert(post.translate_from(t1, w, 1) is None);
                } else {
                    // k == 0 and the divergence is at the leaf level
                    assert(dl == 0 && k == 0 && iw0 != iv0);
                    post.lemma_entry_in_range(t1, iv1);
                    let e1 = post.entry(t1, iv1);
                    assert(pte_valid(e1) && !pte_leaf(e1));
                    assert(post.leaf_at(pte_ppn_of(e1) as int, vpn, 0, k));
                    let t0 = pte_ppn_of(e1) as int;
                    assert(1 <= t0 < post.table_count());
                    assert(post.translate_from(t1, w, 1) == post.translate_from(t0, w, 0));
                    assert(post.on_walk(t1, vpn, 1, k, t1 * 512 + iv1));
                    assert(post.on_walk(0, vpn, 2, k, t1 * 512 + iv1));
                    assert(t0 >= pre.table_count()) by {
                        assert(t1 * 512 + iv1 >= pre@.len()) by (nonlinear_arith)
                            requires
                                t1 >= pre.table_count(),
                                pre@.len() == 512 * pre.table_count(),
                                iv1 >= 0,
                        ;
                        assert(pte_valid(post@[t1 * 512 + iv1]));
                    }
                    assert(t0 != t1) by {
                        if iv2 != t1 * 512 + iv1 {
                            assert(pte_ppn_of(post.entry(0, iv2)) != pte_ppn_of(
                                post.entry(t1, iv1),
                            ));
                        }
                    }
                    let posw0 = t0 * 512 + iw0;
                    post.lemma_entry_in_range(t0, iw0);
                    assert(posw0 >= pre@.len()) by (nonlinear_arith)
                        requires
                            t0 >= pre.table_count(),
                            pre@.len() == 512 * pre.table_count(),
                            iw0 >= 0,
                            posw0 == t0 * 512 + iw0,
                    ;
                    assert(!post.on_walk(0, vpn, 2, k, posw0)) by {
                        assert(posw0 != iv2);
                        lemma_flat_index_distinct(t0, iw0, t1, iv1);
                        lemma_flat_index_distinct(t0, iw0, t0, iv0);
                        assert(!post.on_walk(t0, vpn, 0, k, posw0));
                        assert(!post.on_walk(t1, vpn, 1, k, posw0));
                    }
                    assert(post@[posw0] == 0);
                    assert(post.entry(t0, iw0) == 0);
                    assert(!pte_valid(0u64)) by (bit_vector);
                    assert(post.translate_from(t0, w, 0) is None);
                }
            } else if pte_leaf(e2pre) {
                // a covering leaf already sat on the walk, which the
                // walk structure of the new state rules out
                assert(post@[iv2] == pre@[iv2]);
                assert(false);
            } else {
                // the root link existed before: both walks pass into
                // the same old table
                assert(post@[iv2] == pre@[iv2]);
                assert(e2post == e2pre);
                assert(t1 < pre.table_count());
                assert(pre.translate_from(0, w, 2) == pre.translate_from(t1, w, 1));
                pre.lemma_entry_in_range(t1, iw1);
                let posw1 = t1 * 512 + iw1;
                assert(posw1 >= 512) by (nonlinear_arith)
                    requires
                        t1 >= 1,
                        iw1 >= 0,
                        posw1 == t1 * 512 + iw1,
                ;
                if iw1 != iv1 {
                    assert(!post.on_walk(0, vpn, 2, k, posw1)) by {
                        assert(posw1 != iv2);
                        lemma_flat_index_distinct(t1, iw1, t1, iv1);
                        if k == 0 {
                            post.lemma_entry_in_range(t1, iv1);
                            let e1 = post.entry(t1, iv1);
                            assert(pte_valid(e1) && !pte_leaf(e1));
                            assert(post.on_walk(t1, vpn, 1, k, t1 * 512 + iv1));
                            assert(post.on_walk(0, vpn, 2, k, t1 * 512 + iv1));
                            let t0 = pte_ppn_of(e1) as int;
                            assert(t0 != t1) by {
                                if iv2 != t1 * 512 + iv1 {
                                    assert(pte_ppn_of(post.entry(0, iv2)) != pte_ppn_of(
                                        post.entry(t1, iv1),
                                    ));
                                }
                            }
                            lemma_flat_index_distinct(t1, iw1, t0, iv0);
                            assert(!post.on_walk(t0, vpn, 0, k, posw1));
                            assert(!post.on_walk(t1, vpn, 1, k, posw1));
                        } else {
                            assert(!post.on_walk(t1, vpn, 1, k, posw1));
                        }
                    }
                    assert(post@[posw1] == pre@[posw1]);
                    assert(post.entry(t1, iw1) == pre.entry(t1, iw1));
                    let p1 = pre.entry(t1, iw1);
                    if pte_valid(p1) && !pte_leaf(p1) {
                        let c0 = pte_ppn_of(p1) as int;
                        Self::lemma_subtree_stays_off_walk(pre, post, vpn, k, t1, iw1, c0);
                        Self::lemma_untouched_subtree(pre, post, vpn, k, c0, w, 0);
                        assert(post.translate_from(t1, w, 1) == post.translate_from(c0, w, 0));
                        assert(pre.translate_from(t1, w, 1) == pre.translate_from(c0, w, 0));
                    }
                } else {
                    // k == 0 and the walks also agree one level down
                    assert(dl == 0 && k == 0 && iw0 != iv0);
                    post.lemma_entry_in_range(t1, iv1);
                    let e1post = post.entry(t1, iv1);
                    assert(pte_valid(e1post) && !pte_leaf(e1post));
                    assert(post.leaf_at(pte_ppn_of(e1post) as int, vpn, 0, k));
                    let t0 = pte_ppn_of(e1post) as int;
                    assert(1 <= t0 < post.table_count());
                    assert(post.translate_from(t1, w, 1) == post.translate_from(t0, w, 0));
                    assert(post.on_walk(t1, vpn, 1, k, t1 * 512 + iv1));
                    assert(post.on_walk(0, vpn, 2, k, t1 * 512 + iv1));
                    assert(t0 != t1) by {
                        if iv2 != t1 * 512 + iv1 {
                            assert(pte_ppn_of(post.entry(0, iv2)) != pte_ppn_of(
                                post.entry(t1, iv1),
                            ));
                        }
                    }
                    let e1pre = pre.entry(t1, iv1);
                    pre.lemma_entry_in_range(t1, iv1);
                    if !pte_valid(e1pre) {
                        // this link is new: below it everything is fresh
                        assert(pre.translate_from(t1, w, 1) is None);
                        assert(post@[t1 * 512 + iv1] != pre@[t1 * 512 + iv1]);
                        assert(pte_valid(post@[t1 * 512 + iv1]));
                        assert(t0 >= pre.table_count());
                        let posw0 = t0 * 512 + iw0;
                        post.lemma_entry_in_range(t0, iw0);
                        assert(posw0 >= pre@.len()) by (nonlinear_arith)
                            requires
                                t0 >= pre.table_count(),
                                pre@.len() == 512 * pre.table_count(),
                                iw0 >= 0,
                                posw0 == t0 * 512 + iw0,
                        ;
                        assert(!post.on_walk(0, vpn, 2, k, posw0)) by {
                            assert(posw0 != iv2);
                            lemma_flat_index_distinct(t0, iw0, t1, iv1);
                            lemma_flat_index_distinct(t0, iw0, t0, iv0);
                            assert(!post.on_walk(t0, vpn, 0, k, posw0));
                            assert(!post.on_walk(t1, vpn, 1, k, posw0));
                        }
                        assert(post@[posw0] == 0);
                        assert(post.entry(t0, iw0) == 0);
                        assert(!pte_valid(0u64)) by (bit_vector);
                        assert(post.translate_from(t0, w, 0) is None);
                    } else if pte_leaf(e1pre) {
                        assert(post@[t1 * 512 + iv1] == pre@[t1 * 512 + iv1]);
                        assert(false);
                    } else {
                        // the whole path above the leaf level existed
                        assert(post@[t1 * 512 + iv1] == pre@[t1 * 512 + iv1]);
                        assert(e1post == e1pre);
                        assert(t0 < pre.table_count());
                        assert(pre.translate_from(t1, w, 1) == pre.translate_from(t0, w, 0));
                        let posw0 = t0 * 512 + iw0;
                        pre.lemma_entry_in_range(t0, iw0);
                        assert(posw0 >= 512) by (nonlinear_arith)
                            requires
                                t0 >= 1,
                                iw0 >= 0,
                                posw0 == t0 * 512 + iw0,
                        ;
                        assert(!post.on_walk(0, vpn, 2, k, posw0)) by {
                            assert(posw0 != iv2);
                            lemma_flat_index_distinct(t0, iw0, t1, iv1);
                            lemma_flat_index_distinct(t0, iw0, t0, iv0);
                            assert(!post.on_walk(t0, vpn, 0, k, posw0));
                            assert(!post.on_walk(t1, vpn, 1, k, posw0));
                        }
                        assert(post@[posw0] == pre@[posw0]);
                        assert(post.entry(t0, iw0) == pre.entry(t0, iw0));
                    }
                }
            }
        }
    }

    /// Positions on a walk that starts below the root sit at or beyond
    /// the second table.
    proof fn lemma_on_walk_below(self, t: int, vpn: u64, level: nat, target: nat, j: int)
        requires
            self.wf(),
            1 <= t < self.table_count(),
            0 <= j < 512,
        ensures
            !self.on_walk(t, vpn, level, target, j),
        decreases level,
    {
        lemma_vpn_index_bounds(vpn, level);
        let pos = t * 512 + vpn_index(vpn, level);
        assert(pos >= 512) by (nonlinear_arith)
            requires
                t >= 1,
                vpn_index(vpn, level) >= 0,
                pos == t * 512 + vpn_index(vpn, level),
        ;
        if level != target && level != 0 {
            let p = self.entry(t, vpn_index(vpn, level));
            if pte_valid(p) && !pte_leaf(p) {
                self.lemma_entry_in_range(t, vpn_index(vpn, level));
                Self::lemma_on_walk_below(
                    self,
                    pte_ppn_of(p) as int,
                    vpn,
                    (level - 1) as nat,
                    target,
                    j,
                );
            }
        }
    }

    proof fn lemma_entry_in_range(self, t: int, i: int)
        requires
            self.entries@.len() == 512 * self.table_count(),
            0 <= t < self.table_count(),
            0 <= i < 512,
        ensures
            0 <= t * 512 + i < self.entries@.len(),
            self.entry(t, i) == self.entries@[t * 512 + i],
    {
        assert(0 <= t * 512 + i < 512 * self.table_count()) by (nonlinear_arith)
            requires
                0 <= t < self.table_count(),
                0 <= i < 512,
        ;
    }


    /// Install the translation `vpn -> ppn` at level `lvl` with the given
    /// permission flags (the Valid bit is raised by the operation
    /// itself), creating intermediate tables from `fa` as needed.
    ///
    /// `BadLevel` rejects a physical page not aligned to the level's
    /// coverage; `AlreadyMapped` reports a conflict with the requested
    /// slot or a covering mapping above it, leaving everything
    /// unchanged; `OutOfFrames` reports frame-allocator exhaustion and
    /// may leave fresh, still-empty intermediate tables behind.
    ///
    /// On success the operation writes exactly the path it reports:
    /// existing valid entries are untouched, the count of valid
    /// entries grows by the new intermediate links plus the one leaf,
    /// and every translation that existed before still holds.
    pub fn map(
        &mut self,
        fa: &mut FrameAllocator,
        lvl: MapLevel,
        vpn: u64,
        ppn: u64,
        flags: FlagSet,
    ) -> (r: Result<(), MapError>)
        requires
            old(self).wf(),
            old(fa).wf(),
            old(self).table_count() + 2 <= MAX_TABLES as int,
            ppn < (1u64 << 54),
            flags.wf(),
            flags.0 & 0x0E != 0,
        ensures
            final(self).wf(),
            final(fa).wf(),
            final(self)@.len() >= old(self)@.len(),
            forall|j: int|
                0 <= j < old(self)@.len() && pte_valid(#[trigger] old(self)@[j]) ==> final(self)@[j] == old(self)@[j],
            (r == Err::<(), MapError>(MapError::BadLevel)) <==> ppn & level_mask(lvl.spec_index())
                != 0,
            r == Err::<(), MapError>(MapError::BadLevel) ==> *final(self) == *old(self) && *final(fa) == *old(fa),
            (r == Err::<(), MapError>(MapError::AlreadyMapped)) <==> (ppn & level_mask(
                lvl.spec_index(),
            ) == 0 && old(self).spec_conflicts(vpn, lvl)),
            r == Err::<(), MapError>(MapError::AlreadyMapped) ==> *final(self) == *old(self)
                && *final(fa) == *old(fa),
            r == Err::<(), MapError>(MapError::OutOfFrames) ==> final(fa)@.len() == 0,
            r is Ok <==> (ppn & level_mask(lvl.spec_index()) == 0 && !old(self).spec_conflicts(
                vpn,
                lvl,
            ) && old(fa)@.len() >= old(self).spec_tables_needed(vpn, lvl)),
            r is Ok ==> final(self).spec_translate(vpn) == Some(
                combine_ppn(ppn, vpn, lvl.spec_index()),
            ) && final(self).spec_flags(vpn) == Some(flags.0 | 0x01) && final(self).spec_conflicts(
                vpn,
                lvl,
            ) && final(fa)@ == old(fa)@.skip(old(self).spec_tables_needed(vpn, lvl)) && final(self).table_count() == old(self).table_count() + old(self).spec_tables_needed(vpn, lvl),
            r is Ok ==> count_valid(final(self)@) == count_valid(old(self)@) + old(self).spec_tables_needed(vpn, lvl) + 1,
            forall|w: u64|
                old(self).spec_translate(w) is Some ==> final(self).spec_translate(w) == old(self).spec_translate(w),
            r is Ok ==> forall|w: u64|
                !covered_by(vpn, w, lvl.spec_index()) ==> final(self).spec_translate(w) == old(
                    self,
                ).spec_translate(w),
    {
        let mask: u64 = match lvl {
            MapLevel::Page => 0,
            MapLevel::Big => 0x1ff,
            MapLevel::Huge => 0x3ffff,
        };
        if ppn & mask != 0 {
            return Err(MapError::BadLevel);
        }
        let target = lvl.index();
        let r = self.map_rec(fa, 0, 2, target, vpn, ppn, flags.0);
        proof {
            assert forall|w: u64| old(self).spec_translate(w) is Some implies self.spec_translate(
                w,
            ) == old(self).spec_translate(w) by {
                Self::lemma_translate_preserved(*old(self), *self, 0, w, 2);
            }
            if r is Ok {
                assert forall|w: u64| !covered_by(vpn, w, target as nat) implies self.spec_translate(
                    w,
                ) == old(self).spec_translate(w) by {
                    Self::lemma_off_coverage_preserved(
                        *old(self),
                        *self,
                        vpn,
                        target as nat,
                        w,
                    );
                }
            }
        }
        r
    }

    /// Remove the leaf serving `vpn`, wherever on the walk it sits;
    /// afterwards `vpn` no longer translates. Exactly one entry word is
    /// cleared, and it held a leaf; intermediate tables are retained.
    pub fn unmap(&mut self, vpn: u64) -> (r: Result<(), MapError>)
        requires
            old(self).wf(),
        ensures
            final(self).wf(),
            final(self).table_count() == old(self).table_count(),
            final(self)@.len() == old(self)@.len(),
            r is Ok <==> old(self).spec_translate(vpn) is Some,
            r is Err ==> r == Err::<(), MapError>(MapError::NotMapped) && *final(self) == *old(self),
            r is Ok ==> final(self).spec_translate(vpn) is None && (exists|pos: int|
                0 <= pos < old(self)@.len() && pte_leaf(#[trigger] old(self)@[pos]) && final(self)@ == old(self)@.update(pos, 0)),
    {
        self.unmap_rec(0, 2, vpn)
    }

    fn unmap_rec(&mut self, table: usize, level: usize, vpn: u64) -> (r: Result<(), MapError>)
        requires
            old(self).wf(),
            table < old(self).table_count(),
            level <= 2,
        ensures
            final(self).wf(),
            final(self).table_count() == old(self).table_count(),
            final(self)@.len() == old(self)@.len(),
            r is Ok <==> old(self).translate_from(table as int, vpn, level as nat) is Some,
            r is Err ==> r == Err::<(), MapError>(MapError::NotMapped) && *final(self) == *old(self),
            r is Ok ==> final(self).translate_from(table as int, vpn, level as nat) is None && (
            exists|pos: int|
                0 <= pos < old(self)@.len() && pte_leaf(#[trigger] old(self)@[pos]) && final(self)@ == old(self)@.update(pos, 0)),
        decreases level,
    {
        let i = index_at(vpn, level);
        let p = self.read_entry(table, i);
        if p & 0x01 == 0 {
            Err(MapError::NotMapped)
        } else if p & 0x0E != 0 {
            let ghost pre = *self;
            self.write_entry(table, i, 0);
            proof {
                assert(!pte_valid(0u64)) by (bit_vector);
                Self::lemma_wf_after_update(pre, *self, table as int, i as int, 0);
                pre.lemma_entry_in_range(table as int, i as int);
                let pos = table as int * 512 + i;
                assert(pte_leaf(pre@[pos]) && self@ == pre@.update(pos, 0));
            }
            Ok(())
        } else if level == 0 {
            Err(MapError::NotMapped)
        } else {
            let child = (p >> 10) as usize;
            let ghost pre = *self;
            let r = self.unmap_rec(child, level - 1, vpn);
            proof {
                pre.lemma_entry_in_range(table as int, i as int);
                if r is Ok {
                    let pos = choose|pos: int|
                        0 <= pos < pre@.len() && pte_leaf(#[trigger] pre@[pos]) && final(self)@
                            == pre@.update(pos, 0);
                    assert(pos != table as int * 512 + i);
                    assert(final(self).entry(table as int, i as int) == p);
                }
            }
            r
        }
    }

    /// Rewrite the flags of the leaf serving `vpn` (the Valid bit is
    /// raised by the operation itself), keeping its page number; no
    /// translation, of this or of any other virtual page, changes.
    pub fn set_flags(&mut self, vpn: u64, flags: FlagSet) -> (r: Result<(), MapError>)
        requires
            old(self).wf(),
            flags.wf(),
            flags.0 & 0x0E != 0,
        ensures
            final(self).wf(),
            final(self).table_count() == old(self).table_count(),
            final(self)@.len() == old(self)@.len(),
            r is Ok <==> old(self).spec_translate(vpn) is Some,
            r is Err ==> r == Err::<(), MapError>(MapError::NotMapped) && *final(self) == *old(self),
            r is Ok ==> final(self).spec_translate(vpn) == old(self).spec_translate(vpn) && final(self).spec_flags(vpn) == Some(flags.0 | 0x01),
            forall|w: u64| final(self).spec_translate(w) == old(self).spec_translate(w),
    {
        let r = self.set_flags_rec(0, 2, vpn, flags.0);
        proof {
            if r is Ok {
                let pos = choose|pos: int|
                    0 <= pos < old(self)@.len() && pte_leaf(#[trigger] old(self)@[pos]) && self@
                        == old(self)@.update(
                        pos,
                        pte_word(pte_ppn_of(old(self)@[pos]), flags.0 | 0x01),
                    );
                let oldw = old(self)@[pos];
                let fb = flags.0;
                assert(oldw >> 10 < (1u64 << 54)) by (bit_vector);
                assert(fb | 0x01 < 0x100 && (fb | 0x01) & 0x01 != 0 && (fb | 0x01) & 0x0E == fb
                    & 0x0E) by (bit_vector)
                    requires
                        fb < 0x100,
                ;
                lemma_pte_word_fields(pte_ppn_of(oldw), flags.0 | 0x01);
                assert forall|w: u64| self.spec_translate(w) == old(self).spec_translate(w) by {
                    Self::lemma_translate_flags_only(*old(self), *self, 0, w, 2);
                }
            }
        }
        r
    }

    fn set_flags_rec(&mut self, table: usize, level: usize, vpn: u64, flag_bits: u64) -> (r:
        Result<(), MapError>)
        requires
            old(self).wf(),
            table < old(self).table_count(),
            level <= 2,
            flag_bits < 0x100,
            flag_bits & 0x0E != 0,
        ensures
            final(self).wf(),
            final(self).table_count() == old(self).table_count(),
            final(self)@.len() == old(self)@.len(),
            r is Ok <==> old(self).translate_from(table as int, vpn, level as nat) is Some,
            r is Err ==> r == Err::<(), MapError>(MapError::NotMapped) && *final(self) == *old(self),
            r is Ok ==> final(self).translate_from(table as int, vpn, level as nat) == old(self).translate_from(table as int, vpn, level as nat) && final(self).flags_from(
                table as int,
                vpn,
                level as nat,
            ) == Some(flag_bits | 0x01) && (exists|pos: int|
                0 <= pos < old(self)@.len() && pte_leaf(#[trigger] old(self)@[pos]) && final(self)@ == old(self)@.update(pos, pte_word(pte_ppn_of(old(self)@[pos]), flag_bits
                | 0x01))),
        decreases level,
    {
        let i = index_at(vpn, level);
        let p = self.read_entry(table, i);
        if p & 0x01 == 0 {
            Err(MapError::NotMapped)
        } else if p & 0x0E != 0 {
            let word = ((p >> 10) << 10) | flag_bits | 0x01;
            proof {
                assert((p >> 10) < (1u64 << 54)) by (bit_vector);
                assert(flag_bits | 0x01 < 0x100 && (flag_bits | 0x01) & 0x01 != 0 && (flag_bits
                    | 0x01) & 0x0E == flag_bits & 0x0E && ((p >> 10) << 10) | flag_bits | 0x01 == ((
                p >> 10) << 10) | (flag_bits | 0x01)) by (bit_vector)
                    requires
                        flag_bits < 0x100,
                ;
                lemma_pte_word_fields(p >> 10, flag_bits | 0x01);
            }
            let ghost pre = *self;
            self.write_entry(table, i, word);
            proof {
                Self::lemma_wf_after_update(pre, *self, table as int, i as int, word);
                pre.lemma_entry_in_range(table as int, i as int);
                let pos = table as int * 512 + i;
                assert(pte_leaf(pre@[pos]) && self@ == pre@.update(pos, word));
                assert(pte_ppn_of(word) == pte_ppn_of(p));
            }
            Ok(())
        } else if level == 0 {
            Err(MapError::NotMapped)
        } else {
            let child = (p >> 10) as usize;
            let ghost pre = *self;
            let r = self.set_flags_rec(child, level - 1, vpn, flag_bits);
            proof {
                pre.lemma_entry_in_range(table as int, i as int);
                if r is Ok {
                    let pos = choose|pos: int|
                        0 <= pos < pre@.len() && pte_leaf(#[trigger] pre@[pos]) && final(self)@
                            == pre@.update(pos, pte_word(pte_ppn_of(pre@[pos]), flag_bits | 0x01));
                    assert(pos != table as int * 512 + i);
                    assert(final(self).entry(table as int, i as int) == p);
                }
            }
            r
        }
    }

    /// Walk the tree for `vpn` from `table` at `current_level`; the
    /// result is exactly what the specification-level walk says.
    pub fn translate_rec(&self, vpn: u64, current_level: MapLevel, table: usize) -> (r: Option<
        u64,
    >)
        requires
            self.wf(),
            table < self.table_count(),
        ensures
            r == self.translate_from(table as int, vpn, current_level.spec_index()),
        decreases current_level.spec_index(),
    {
        let i = current_level.get_index(vpn);
        let p = self.read_entry(table, i);
        if p & 0x01 == 0 {
            proof {
                assert(!pte_valid(p)) by (bit_vector)
                    requires
                        p & 0x01 == 0,
                ;
            }
            None
        } else {
            proof {
                assert(pte_valid(p)) by (bit_vector)
                    requires
                        p & 0x01 != 0,
                ;
            }
            if p & 0x0E != 0 {
                let ppn = p >> 10;
                let level = current_level.index();
                if level == 0 {
                    proof {
                        lemma_combine_page_level(ppn, vpn);
                    }
                    Some(ppn)
                } else if level == 1 {
                    Some((ppn & !0x1ffu64) | (vpn & 0x1ffu64))
                } else {
                    Some((ppn & !0x3ffffu64) | (vpn & 0x3ffffu64))
                }
            } else {
                match current_level.next() {
                    Some(next_level) => {
                        let child = (p >> 10) as usize;
                        self.translate_rec(vpn, next_level, child)
                    },
                    None => None,
                }
            }
        }
    }

    /// Translate a virtual page number through the whole tree.
    pub fn translate(&self, vpn: u64) -> (r: Option<u64>)
        requires
            self.wf(),
        ensures
            r == self.spec_translate(vpn),
    {
        self.translate_rec(vpn, MapLevel::Huge, 0)
    }
}


/// The 9-bit slice of `vpn` indexing a table at tree depth `level`.
fn index_at(vpn: u64, level: usize) -> (r: usize)
    requires
        level <= 2,
    ensures
        r == vpn_index(vpn, level as nat),
        r < 512,
{
    proof {
        lemma_vpn_index_bounds(vpn, level as nat);
    }
    if level == 0 {
        (vpn & 0x1ff) as usize
    } else if level == 1 {
        ((vpn >> 9) & 0x1ff) as usize
    } else {
        ((vpn >> 18) & 0x1ff) as usize
    }
}


/// Round-trip mapping law, arithmetic half: a successful
/// `map(Page, vpn, ppn, _)` leaves the tree translating `vpn` to the
/// combined page number (by `map`'s contract), and at the page level
/// the combination is `ppn` itself, so `translate(vpn)` returns
/// exactly `Some(ppn)`; after `unmap(vpn)`, `translate(vpn)` returns
/// `None` directly by `unmap`'s contract.
pub proof fn lemma_map_round_trip(pt_after: PageTable, vpn: u64, ppn: u64)
    requires
        pt_after.spec_translate(vpn) == Some(
            combine_ppn(ppn, vpn, MapLevel::Page.spec_index()),
        ),
    ensures
        pt_after.spec_translate(vpn) == Some(ppn),
{
    lemma_combine_page_level(ppn, vpn);
}

proof fn lemma_translate_some_blocked(
    pt: PageTable,
    t: int,
    vpn: u64,
    level: nat,
    target: nat,
)
    requires
        target <= level,
        pt.translate_from(t, vpn, level) is Some,
    ensures
        pt.blocked_from(t, vpn, level, target),
    decreases level,
{
    let p = pt.entry(t, vpn_index(vpn, level));
    if level != target && !pte_leaf(p) {
        lemma_translate_some_blocked(pt, pte_ppn_of(p) as int, vpn, (level - 1) as nat, target);
    }
}

/// Conflict detection law: a virtual page number that currently
/// translates conflicts with any further map request for it, at every
/// level; together with `map`'s contract, mapping the same `vpn`
/// twice at the same level without an intervening `unmap` returns
/// `AlreadyMapped` and changes nothing. A request whose physical page
/// is misaligned for its level is answered `BadLevel` before the
/// conflict is even considered.
pub proof fn lemma_mapped_vpn_conflicts(pt: PageTable, vpn: u64, lvl: MapLevel)
    requires
        pt.spec_translate(vpn) is Some,
    ensures
        pt.spec_conflicts(vpn, lvl),
{
    lemma_translate_some_blocked(pt, 0, vpn, 2, lvl.spec_index());
}

proof fn lemma_flat_index_distinct(t1: int, i1: int, t2: int, i2: int)
    requires
        0 <= i1 < 512,
        0 <= i2 < 512,
        t1 != t2 || i1 != i2,
    ensures
        t1 * 512 + i1 != t2 * 512 + i2,
{
    if t1 != t2 {
        assert(t1 * 512 + i1 != t2 * 512 + i2) by (nonlinear_arith)
            requires
                0 <= i1 < 512,
                0 <= i2 < 512,
                t1 != t2,
        ;
    }
}

} // verus!
