use vstd::prelude::*;

use crate::constants::{ACTIVE_WORDS, VOXEL_COUNT};
use crate::voxel::Voxel;

verus! {

/// Integer coordinates of a chunk in the chunk grid.
pub type ChunkCoord = (i32, i32, i32);

/// Whether bit `b` of `w` is set.
pub open spec fn word_bit(w: u64, b: int) -> bool {
    (w >> (b as u64)) & 1u64 == 1u64
}

/// A cubic block of voxels: one colour per voxel and a bitmap saying which
/// voxels are solid. Voxel `i` is stored at bit `i % 64` of word `i / 64`.
pub struct Chunk {
    pub voxels: [Voxel; VOXEL_COUNT],
    pub active_voxels: [u64; ACTIVE_WORDS],
    pub position: ChunkCoord,
    pub is_dirty: bool,
    pub is_empty: bool,
}

/// Whether every word of a bitmap is zero.
pub open spec fn all_words_zero(words: Seq<u64>) -> bool {
    forall|w: int| 0 <= w < words.len() ==> words[w] == 0
}

/// Whether voxel `i` is marked solid in a bitmap.
pub open spec fn bitmap_active(words: Seq<u64>, i: int) -> bool {
    word_bit(words[i / 64], i % 64)
}

/// Whether some voxel of a chunk-sized bitmap is marked solid.
pub open spec fn bitmap_has_active(words: Seq<u64>) -> bool {
    exists|i: int| 0 <= i < VOXEL_COUNT && #[trigger] bitmap_active(words, i)
}

impl Chunk {
    /// Whether voxel `i` of this chunk is solid.
    pub open spec fn active(self, i: int) -> bool {
        bitmap_active(self.active_voxels@, i)
    }

    /// Whether some voxel of this chunk is solid.
    pub open spec fn has_active(self) -> bool {
        bitmap_has_active(self.active_voxels@)
    }

    /// The colour stored for voxel `i`.
    pub open spec fn voxel(self, i: int) -> Voxel {
        self.voxels@[i]
    }

    /// Builds a chunk from its voxels and bitmap. A new chunk is dirty, and it
    /// is marked empty exactly when no voxel is solid.
    pub fn create(
        voxels: [Voxel; VOXEL_COUNT],
        active_voxels: [u64; ACTIVE_WORDS],
        position: ChunkCoord,
    ) -> (c: Chunk)
        ensures
            c.voxels@ == voxels@,
            c.active_voxels@ == active_voxels@,
            c.position == position,
            c.is_dirty,
            c.is_empty == !c.has_active(),
    {
        let is_empty = words_all_zero(&active_voxels);
        Chunk { voxels, active_voxels, position, is_dirty: true, is_empty }
    }

    /// Whether no voxel of the chunk is solid (read from the bitmap, not
    /// from the cached `is_empty` field).
    pub fn is_empty(&self) -> (b: bool)
        ensures
            b == !self.has_active(),
    {
        words_all_zero(&self.active_voxels)
    }

    /// Whether voxel `idx` is solid.
    pub fn is_active(&self, idx: usize) -> (b: bool)
        requires
            idx < VOXEL_COUNT,
        ensures
            b == self.active(idx as int),
    {
        let word = idx / 64;
        let bit = idx % 64;
        (self.active_voxels[word] >> (bit as u64)) & 1u64 == 1u64
    }

    /// Marks voxel `idx` solid or not; every other voxel keeps its state.
    pub fn set_active(&mut self, idx: usize, val: bool)
        requires
            idx < VOXEL_COUNT,
        ensures
            final(self).active(idx as int) == val,
            forall|j: int|
                0 <= j < VOXEL_COUNT && j != idx ==> final(self).active(j) == old(self).active(j),
            final(self).voxels@ == old(self).voxels@,
            final(self).position == old(self).position,
            final(self).is_dirty == old(self).is_dirty,
            final(self).is_empty == old(self).is_empty,
    {
        let word = idx / 64;
        let bit = idx % 64;
        let old_word = self.active_voxels[word];
        let new_word = if val {
            old_word | (1u64 << (bit as u64))
        } else {
            old_word & !(1u64 << (bit as u64))
        };
        self.active_voxels[word] = new_word;
        proof {
            lemma_bit_update(old_word, bit as u64, val);
            assert forall|j: int| 0 <= j < VOXEL_COUNT && j != idx implies self.active(j)
                == old(self).active(j) by {
                if j / 64 == word as int {
                    assert(j % 64 != bit as int);
                }
            }
        }
    }

    /// Stores `Some` voxel and marks it solid, or marks the slot empty for
    /// `None` (the stored colour is then left as it was).
    pub fn set(&mut self, idx: usize, voxel: Option<Voxel>)
        requires
            idx < VOXEL_COUNT,
        ensures
            match voxel {
                Some(v) => {
                    &&& final(self).voxels@ == old(self).voxels@.update(idx as int, v)
                    &&& final(self).active(idx as int)
                },
                None => {
                    &&& final(self).voxels@ == old(self).voxels@
                    &&& !final(self).active(idx as int)
                },
            },
            forall|j: int|
                0 <= j < VOXEL_COUNT && j != idx ==> final(self).active(j) == old(self).active(j),
            final(self).position == old(self).position,
            final(self).is_dirty == old(self).is_dirty,
            final(self).is_empty == old(self).is_empty,
    {
        match voxel {
            Some(v) => {
                self.voxels[idx] = v;
                self.set_active(idx, true);
            },
            None => {
                self.set_active(idx, false);
            },
        }
    }
}

/// Whether every word of the bitmap is zero, which is the case exactly when
/// no voxel is marked solid.
fn words_all_zero(words: &[u64; ACTIVE_WORDS]) -> (b: bool)
    ensures
        b == all_words_zero(words@),
        b == !bitmap_has_active(words@),
{
    let mut i: usize = 0;
    while i < ACTIVE_WORDS
        invariant
            i <= ACTIVE_WORDS,
            words@.len() == ACTIVE_WORDS,
            forall|w: int| 0 <= w < i ==> words@[w] == 0,
        decreases ACTIVE_WORDS - i,
    {
        if words[i] != 0 {
            proof {
                lemma_all_zero_iff_none_active(words@);
            }
            return false;
        }
        i = i + 1;
    }
    proof {
        lemma_all_zero_iff_none_active(words@);
    }
    true
}

/// Setting or clearing bit `b` changes that bit only.
pub proof fn lemma_bit_update(w: u64, b: u64, val: bool)
    requires
        b < 64,
    ensures
        val ==> word_bit(w | (1u64 << b), b as int),
        !val ==> !word_bit(w & !(1u64 << b), b as int),
        forall|c: u64|
            #![trigger (w >> c)]
            c < 64 && c != b ==> word_bit(w | (1u64 << b), c as int) == word_bit(w, c as int)
                && word_bit(w & !(1u64 << b), c as int) == word_bit(w, c as int),
{
    assert(((w | (1u64 << b)) >> b) & 1u64 == 1u64) by (bit_vector)
        requires
            b < 64,
    ;
    assert(((w & !(1u64 << b)) >> b) & 1u64 == 0u64) by (bit_vector)
        requires
            b < 64,
    ;
    assert forall|c: u64| #![trigger (w >> c)] c < 64 && c != b implies word_bit(
        w | (1u64 << b),
        c as int,
    ) == word_bit(w, c as int) && word_bit(w & !(1u64 << b), c as int) == word_bit(
        w,
        c as int,
    ) by {
        assert(((w | (1u64 << b)) >> c) & 1u64 == (w >> c) & 1u64) by (bit_vector)
            requires
                b < 64,
                c < 64,
                c != b,
        ;
        assert(((w & !(1u64 << b)) >> c) & 1u64 == (w >> c) & 1u64) by (bit_vector)
            requires
                b < 64,
                c < 64,
                c != b,
        ;
    }
}

/// A word is zero exactly when none of its 64 bits is set.
pub proof fn lemma_word_zero_iff_no_bit(w: u64)
    ensures
        w == 0 <==> (forall|c: int| 0 <= c < 64 ==> !#[trigger] word_bit(w, c)),
{
    if w == 0 {
        assert forall|c: int| 0 <= c < 64 implies !#[trigger] word_bit(w, c) by {
            let cc = c as u64;
            assert((0u64 >> cc) & 1u64 == 0u64) by (bit_vector);
        }
    } else {
        if forall|c: int| 0 <= c < 64 ==> !#[trigger] word_bit(w, c) {
            lemma_shifted_zero(w, 0);
            assert(w >> 0u64 == w) by (bit_vector);
        }
    }
}

/// If bits `k..64` of `w` are all clear, then `w >> k` is zero.
proof fn lemma_shifted_zero(w: u64, k: u64)
    requires
        k <= 64,
        forall|c: int| k <= c < 64 ==> !#[trigger] word_bit(w, c),
    ensures
        w >> k == 0,
    decreases 64 - k,
{
    if k == 64 {
        assert(w >> 64u64 == 0) by (bit_vector);
    } else {
        lemma_shifted_zero(w, (k + 1) as u64);
        assert(!word_bit(w, k as int));
        let k1 = (k + 1) as u64;
        assert((w >> k1) == 0 && ((w >> k) & 1u64) != 1u64 && k < 64 && k1 == k + 1 ==> (w >> k)
            == 0) by (bit_vector);
    }
}

/// A chunk bitmap has a solid voxel exactly when one of its words is not zero.
pub proof fn lemma_all_zero_iff_none_active(words: Seq<u64>)
    requires
        words.len() == ACTIVE_WORDS,
    ensures
        all_words_zero(words) <==> !bitmap_has_active(words),
{
    if all_words_zero(words) {
        assert forall|i: int| 0 <= i < VOXEL_COUNT implies !#[trigger] bitmap_active(words, i) by {
            lemma_word_zero_iff_no_bit(words[i / 64]);
            assert(!word_bit(words[i / 64], i % 64));
        }
    } else {
        let w = choose|w: int| 0 <= w < words.len() && words[w] != 0;
        lemma_word_zero_iff_no_bit(words[w]);
        let c = choose|c: int| 0 <= c < 64 && #[trigger] word_bit(words[w], c);
        let i = w * 64 + c;
        assert(i / 64 == w && i % 64 == c) by {
            vstd::arithmetic::div_mod::lemma_fundamental_div_mod_converse(i, 64, w, c);
        }
        assert(bitmap_active(words, i));
    }
}

} // verus!
