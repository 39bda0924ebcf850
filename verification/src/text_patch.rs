//! The text patch engine: minimal insert/delete/replace edits between two
//! Unicode scalar sequences, found by trimming the longest common prefix and
//! suffix.

use vstd::prelude::*;

verus! {

/// An edit to a scalar sequence: starting at `position` scalars, delete
/// `remove` scalars, then insert `insert`.
///
/// The 16-bit width of `position` and `remove` caps a single edit's
/// addressable range at 65535 scalars; callers must guard longer documents
/// upstream.
#[derive(Debug, PartialEq, Eq)]
pub struct TextPatch {
    /// Position to start the mutation at, in scalars.
    pub position: u16,
    /// Number of scalars to remove after `position`.
    pub remove: u16,
    /// Scalars to insert at `position` after removal.
    pub insert: Vec<char>,
}

/// Mathematical model of a `TextPatch`.
#[verifier::ext_equal]
pub struct TextPatchV {
    pub position: u16,
    pub remove: u16,
    pub insert: Seq<char>,
}

impl View for TextPatch {
    type V = TextPatchV;

    open spec fn view(&self) -> TextPatchV {
        TextPatchV { position: self.position, remove: self.remove, insert: self.insert@ }
    }
}

/// Length of the longest common prefix of `a` and `b`.
pub open spec fn prefix_len(a: Seq<char>, b: Seq<char>) -> nat
    decreases a.len(),
{
    if a.len() == 0 || b.len() == 0 || a[0] != b[0] {
        0
    } else {
        1 + prefix_len(a.subrange(1, a.len() as int), b.subrange(1, b.len() as int))
    }
}

/// Length of the longest common suffix of `a` and `b`.
pub open spec fn suffix_len(a: Seq<char>, b: Seq<char>) -> nat
    decreases a.len(),
{
    if a.len() == 0 || b.len() == 0 || a.last() != b.last() {
        0
    } else {
        1 + suffix_len(a.subrange(0, a.len() - 1), b.subrange(0, b.len() - 1))
    }
}

/// The patch that rewrites `old` into `new`: trim the longest common prefix,
/// then the longest common suffix of what remains; what is left of `new` is
/// the insertion, what is left of `old` is removed.
pub open spec fn text_patch_of(old: Seq<char>, new: Seq<char>) -> TextPatchV {
    let start = prefix_len(old, new) as int;
    let end = suffix_len(
        old.subrange(start, old.len() as int),
        new.subrange(start, new.len() as int),
    ) as int;
    TextPatchV {
        position: start as u16,
        remove: (old.len() - end - start) as u16,
        insert: new.subrange(start, new.len() - end),
    }
}

/// The sequence produced by applying `p` to `src`: up to `position` scalars
/// copied from the front of `src`, then `insert`, then what remains of `src`
/// after discarding `remove` further scalars. Total for every patch; an
/// oversized `position` or `remove` simply exhausts `src`.
pub open spec fn apply_text(p: TextPatchV, src: Seq<char>) -> Seq<char> {
    let pos = if p.position as int <= src.len() {
        p.position as int
    } else {
        src.len() as int
    };
    let cut = if pos + p.remove as int <= src.len() {
        pos + p.remove as int
    } else {
        src.len() as int
    };
    src.subrange(0, pos) + p.insert + src.subrange(cut, src.len() as int)
}

proof fn lemma_prefix_len_bounds(a: Seq<char>, b: Seq<char>)
    ensures
        prefix_len(a, b) <= a.len(),
        prefix_len(a, b) <= b.len(),
        forall|i: int| 0 <= i < prefix_len(a, b) ==> a[i] == b[i],
    decreases a.len(),
{
    if a.len() == 0 || b.len() == 0 || a[0] != b[0] {
    } else {
        let a1 = a.subrange(1, a.len() as int);
        let b1 = b.subrange(1, b.len() as int);
        lemma_prefix_len_bounds(a1, b1);
        assert forall|i: int| 0 <= i < prefix_len(a, b) implies a[i] == b[i] by {
            if i > 0 {
                assert(a1[i - 1] == b1[i - 1]);
            }
        };
    }
}

/// A scan that stops at the first mismatch (or at the end of either sequence)
/// has found exactly the longest common prefix.
proof fn lemma_prefix_len_from_scan(a: Seq<char>, b: Seq<char>, k: int)
    requires
        0 <= k <= a.len(),
        k <= b.len(),
        forall|i: int| 0 <= i < k ==> a[i] == b[i],
        k < a.len() && k < b.len() ==> a[k] != b[k],
    ensures
        prefix_len(a, b) == k,
    decreases k,
{
    if k == 0 {
    } else {
        let a1 = a.subrange(1, a.len() as int);
        let b1 = b.subrange(1, b.len() as int);
        lemma_prefix_len_from_scan(a1, b1, k - 1);
    }
}

proof fn lemma_suffix_len_bounds(a: Seq<char>, b: Seq<char>)
    ensures
        suffix_len(a, b) <= a.len(),
        suffix_len(a, b) <= b.len(),
        forall|j: int|
            a.len() - suffix_len(a, b) <= j < a.len() ==> #[trigger] a[j] == b[
                j + b.len() - a.len()
            ],
    decreases a.len(),
{
    if a.len() == 0 || b.len() == 0 || a.last() != b.last() {
    } else {
        let a1 = a.subrange(0, a.len() - 1);
        let b1 = b.subrange(0, b.len() - 1);
        lemma_suffix_len_bounds(a1, b1);
        assert forall|j: int| a.len() - suffix_len(a, b) <= j < a.len() implies #[trigger] a[j]
            == b[j + b.len() - a.len()] by {
            if j < a.len() - 1 {
                assert(a1[j] == b1[j + b1.len() - a1.len()]);
            }
        };
    }
}

/// A scan from the back that stops at the first mismatch (or at the start of
/// either sequence) has found exactly the longest common suffix.
proof fn lemma_suffix_len_from_scan(a: Seq<char>, b: Seq<char>, k: int)
    requires
        0 <= k <= a.len(),
        k <= b.len(),
        forall|j: int| a.len() - k <= j < a.len() ==> #[trigger] a[j] == b[j + b.len() - a.len()],
        k < a.len() && k < b.len() ==> a[a.len() - 1 - k] != b[b.len() - 1 - k],
    ensures
        suffix_len(a, b) == k,
    decreases k,
{
    if k == 0 {
    } else {
        let a1 = a.subrange(0, a.len() - 1);
        let b1 = b.subrange(0, b.len() - 1);
        assert(a[a.len() - 1] == b[b.len() - 1]);
        assert forall|j: int| a1.len() - (k - 1) <= j < a1.len() implies #[trigger] a1[j]
            == b1[j + b1.len() - a1.len()] by {
            assert(a1[j] == a[j]);
            assert(b1[j + b1.len() - a1.len()] == b[j + b.len() - a.len()]);
        };
        lemma_suffix_len_from_scan(a1, b1, k - 1);
    }
}

/// Text patch correctness: the computed patch, applied to `old`, reproduces
/// `new` exactly, for every source within the 16-bit addressable bound.
pub proof fn lemma_text_patch_round_trip(old: Seq<char>, new: Seq<char>)
    requires
        old.len() <= u16::MAX,
    ensures
        apply_text(text_patch_of(old, new), old) == new,
{
    let start = prefix_len(old, new) as int;
    lemma_prefix_len_bounds(old, new);
    let old1 = old.subrange(start, old.len() as int);
    let new1 = new.subrange(start, new.len() as int);
    let end = suffix_len(old1, new1) as int;
    lemma_suffix_len_bounds(old1, new1);
    let p = text_patch_of(old, new);
    assert(p.position as int == start);
    assert(p.remove as int == old.len() - end - start);
    let applied = apply_text(p, old);
    assert(applied =~= new) by {
        assert forall|i: int| 0 <= i < new.len() implies applied[i] == new[i] by {
            if i < start {
                assert(applied[i] == old[i]);
                assert(old[i] == new[i]);
            } else if i < new.len() - end {
                assert(applied[i] == p.insert[i - start]);
            } else {
                let oi = i + old.len() - new.len();
                assert(applied[i] == old[oi]) by {
                    assert(applied[i] == old[(old.len() - end) + (i - (new.len() - end))]);
                };
                let j = oi - start;
                assert(old1[j] == new1[j + new1.len() - old1.len()]);
                assert(old1[j] == old[oi]);
                assert(new1[j + new1.len() - old1.len()] == new[i]);
            }
        };
    };
}

impl TextPatch {
    /// Compute the patch that rewrites `old` into `new`, scanning for the
    /// longest common prefix, then the longest common suffix of the rest.
    ///
    /// The result is exact: applying it to `old` always reproduces `new`.
    pub fn new(old: &[char], new: &[char]) -> (r: TextPatch)
        requires
            old@.len() <= u16::MAX,
        ensures
            r@ == text_patch_of(old@, new@),
    {
        let old_len: usize = old.len();
        let new_len: usize = new.len();
        let min_len: usize = if old_len <= new_len { old_len } else { new_len };

        let mut start: usize = 0;
        while start < min_len && old[start] == new[start]
            invariant
                0 <= start <= min_len,
                min_len <= old_len,
                min_len <= new_len,
                old_len == old@.len(),
                new_len == new@.len(),
                min_len == if old_len <= new_len { old_len } else { new_len },
                forall|i: int| 0 <= i < start ==> old@[i] == new@[i],
            decreases min_len - start,
        {
            start = start + 1;
        }
        proof {
            lemma_prefix_len_from_scan(old@, new@, start as int);
        }

        // Longest common suffix of old[start..] and new[start..], scanned
        // from the back.
        let mut end: usize = 0;
        let rem: usize = min_len - start;
        while end < rem && old[old_len - 1 - end] == new[new_len - 1 - end]
            invariant
                0 <= end <= rem,
                rem == min_len - start,
                start <= min_len,
                min_len <= old_len,
                min_len <= new_len,
                old_len == old@.len(),
                new_len == new@.len(),
                min_len == if old_len <= new_len { old_len } else { new_len },
                forall|j: int|
                    old_len - end <= j < old_len ==> #[trigger] old@[j] == new@[
                        j + new_len - old_len
                    ],
            decreases rem - end,
        {
            end = end + 1;
        }
        proof {
            let old1 = old@.subrange(start as int, old_len as int);
            let new1 = new@.subrange(start as int, new_len as int);
            assert forall|j: int| old1.len() - end <= j < old1.len() implies #[trigger] old1[j]
                == new1[j + new1.len() - old1.len()] by {
                assert(old1[j] == old@[j + start]);
                assert(new1[j + new1.len() - old1.len()] == new@[j + start + new_len - old_len]);
            };
            if end < old1.len() && end < new1.len() {
                assert(old1[old1.len() - 1 - end] == old@[old_len - 1 - end]);
                assert(new1[new1.len() - 1 - end] == new@[new_len - 1 - end]);
            }
            lemma_suffix_len_from_scan(old1, new1, end as int);
        }

        let mut insert: Vec<char> = Vec::new();
        let stop: usize = new_len - end;
        let mut j: usize = start;
        while j < stop
            invariant
                start <= j <= stop,
                stop == new_len - end,
                end <= new_len,
                new_len == new@.len(),
                insert@ == new@.subrange(start as int, j as int),
            decreases stop - j,
        {
            insert.push(new[j]);
            proof {
                assert(insert@ =~= new@.subrange(start as int, j + 1));
            }
            j = j + 1;
        }

        TextPatch { position: start as u16, remove: (old_len - end - start) as u16, insert }
    }

    /// Apply this patch to the scalars of `src`, appending the patched
    /// sequence to `dst`: up to `position` scalars copied from `src`, then
    /// `insert`, then the rest of `src` after discarding `remove` scalars.
    pub fn apply(&self, dst: &mut Vec<char>, src: &[char])
        ensures
            final(dst)@ == old(dst)@ + apply_text(self@, src@),
    {
        let src_len: usize = src.len();
        let pos: usize = if (self.position as usize) <= src_len {
            self.position as usize
        } else {
            src_len
        };
        let mut i: usize = 0;
        while i < pos
            invariant
                0 <= i <= pos,
                pos <= src_len,
                src_len == src@.len(),
                dst@ == old(dst)@ + src@.subrange(0, i as int),
            decreases pos - i,
        {
            dst.push(src[i]);
            proof {
                assert(old(dst)@ + src@.subrange(0, i + 1) =~= dst@);
            }
            i = i + 1;
        }
        let mut k: usize = 0;
        let ins_len: usize = self.insert.len();
        while k < ins_len
            invariant
                0 <= k <= ins_len,
                ins_len == self.insert@.len(),
                pos <= src_len,
                src_len == src@.len(),
                dst@ == old(dst)@ + src@.subrange(0, pos as int) + self.insert@.subrange(
                    0,
                    k as int,
                ),
            decreases ins_len - k,
        {
            dst.push(self.insert[k]);
            proof {
                assert(old(dst)@ + src@.subrange(0, pos as int) + self.insert@.subrange(0, k + 1)
                    =~= dst@);
            }
            k = k + 1;
        }
        let cut: usize = if pos + (self.remove as usize) <= src_len {
            pos + (self.remove as usize)
        } else {
            src_len
        };
        let mut m: usize = cut;
        while m < src_len
            invariant
                cut <= m <= src_len,
                pos <= cut,
                src_len == src@.len(),
                ins_len == self.insert@.len(),
                dst@ == old(dst)@ + src@.subrange(0, pos as int) + self.insert@ + src@.subrange(
                    cut as int,
                    m as int,
                ),
            decreases src_len - m,
        {
            dst.push(src[m]);
            proof {
                assert(old(dst)@ + src@.subrange(0, pos as int) + self.insert@ + src@.subrange(
                    cut as int,
                    m + 1,
                ) =~= dst@);
            }
            m = m + 1;
        }
        proof {
            assert(self.insert@.subrange(0, ins_len as int) =~= self.insert@);
            assert(dst@ =~= old(dst)@ + apply_text(self@, src@));
        }
    }

    /// Estimate of the destination's size after this patch, for buffer
    /// pre-allocation. Falls back to `dst_size` when the raw estimate falls
    /// outside `[0, 2000]`, guarding against an oversized patch inflating an
    /// allocation; this affects only pre-sizing, never correctness.
    pub fn estimate_new_size(&self, dst_size: usize) -> (r: usize)
        ensures
            r == estimate_spec(self@, dst_size),
    {
        let est: i128 = dst_size as i128 - self.remove as i128 + self.insert.len() as i128;
        if 0 <= est && est <= 2000 {
            est as usize
        } else {
            dst_size
        }
    }
}

/// The documented size estimate: `dst_size - remove + insert.len()`, clamped
/// to the destination's current size when outside `[0, 2000]`.
pub open spec fn estimate_spec(p: TextPatchV, dst_size: usize) -> usize {
    let est = dst_size - p.remove + p.insert.len();
    if 0 <= est <= 2000 {
        est as usize
    } else {
        dst_size
    }
}

} // verus!
