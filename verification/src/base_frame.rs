//! Base-frame selection: deriving the one reference array that every
//! frame of a corpus is diffed against before compression.
//!
//! Two policies are exposed. The majority-vote policy picks, for each
//! byte position independently, the value occurring most often across
//! the corpus: fast, but blind to how positions interact under
//! compression. The minimal-total-size policy tries every corpus member
//! as the base and keeps the one whose summed compressed diff sizes are
//! smallest: quadratic in the corpus, but it optimizes the true storage
//! objective.

use vstd::prelude::*;

use crate::codec;
use crate::delta;

verus! {

/// A rejected frame corpus.
#[derive(Clone, Copy, Debug, PartialEq, Eq)]
pub enum SelectError {
    /// No frames to choose a reference from.
    EmptyCorpus,
    /// Frames of differing lengths in one corpus.
    LengthMismatch,
}

/// The byte sequences of a corpus of packed frames.
pub open spec fn views(fs: Seq<Vec<u8>>) -> Seq<Seq<u8>> {
    Seq::new(fs.len(), |i: int| fs[i]@)
}

/// Every frame of the corpus has the first frame's length.
pub open spec fn equal_lengths(fs: Seq<Seq<u8>>) -> bool {
    forall|i: int| 0 <= i < fs.len() ==> (#[trigger] fs[i]).len() == fs[0].len()
}

/// How many of the first `k` frames hold byte `v` at position `idx`.
pub open spec fn count_upto(fs: Seq<Seq<u8>>, k: int, idx: int, v: u8) -> int
    decreases k,
{
    if k <= 0 {
        0
    } else {
        count_upto(fs, k - 1, idx, v) + if fs[k - 1][idx] == v {
            1int
        } else {
            0int
        }
    }
}

/// How many frames of the corpus hold byte `v` at position `idx`.
pub open spec fn count_value(fs: Seq<Seq<u8>>, idx: int, v: u8) -> int {
    count_upto(fs, fs.len() as int, idx, v)
}

/// `v` is the majority value at `idx`: no byte value occurs more often
/// there, and among the equally frequent values `v` is the smallest —
/// the deterministic tie-break.
pub open spec fn majority_pick(fs: Seq<Seq<u8>>, idx: int, v: u8) -> bool {
    forall|w: u8|
        #![trigger count_value(fs, idx, w)]
        count_value(fs, idx, w) <= count_value(fs, idx, v) && (count_value(fs, idx, w)
            == count_value(fs, idx, v) ==> v <= w)
}

/// The majority value at a position is unique: the majority-vote policy
/// is a function of the corpus alone, so running it twice on the same
/// corpus must yield the same reference array.
pub proof fn lemma_majority_vote_deterministic(fs: Seq<Seq<u8>>, a: Seq<u8>, b: Seq<u8>)
    requires
        a.len() == b.len(),
        forall|i: int| 0 <= i < a.len() ==> majority_pick(fs, i, #[trigger] a[i]),
        forall|i: int| 0 <= i < b.len() ==> majority_pick(fs, i, #[trigger] b[i]),
    ensures
        a == b,
{
    assert forall|i: int| 0 <= i < a.len() implies #[trigger] a[i] == b[i] by {
        assert(count_value(fs, i, b[i]) <= count_value(fs, i, a[i]));
        assert(count_value(fs, i, a[i]) <= count_value(fs, i, b[i]));
    }
    assert(a =~= b);
}

/// The majority-vote policy ("suboptimal/fast"): for each byte position
/// independently, the value occurring most often across the corpus at
/// that position, ties broken towards the smallest byte value. Rejects
/// an empty corpus and frames of unequal lengths.
pub fn find_suboptimal_base_frame(frames: &[Vec<u8>]) -> (res: Result<Vec<u8>, SelectError>)
    ensures
        res is Ok <==> frames@.len() > 0 && equal_lengths(views(frames@)),
        match res {
            Ok(v) => {
                &&& v@.len() == frames@[0]@.len()
                &&& forall|i: int|
                    0 <= i < v@.len() ==> majority_pick(views(frames@), i, #[trigger] v@[i])
            },
            Err(e) => match e {
                SelectError::EmptyCorpus => frames@.len() == 0,
                SelectError::LengthMismatch => frames@.len() > 0 && !equal_lengths(
                    views(frames@),
                ),
            },
        },
{
    let n = frames.len();
    if n == 0 {
        return Err(SelectError::EmptyCorpus);
    }
    let len = frames[0].len();
    let mut i: usize = 1;
    while i < n
        invariant
            1 <= i <= n,
            n == frames@.len(),
            len == frames@[0]@.len(),
            forall|j: int| 0 <= j < i ==> (#[trigger] frames@[j])@.len() == len,
        decreases n - i,
    {
        if frames[i].len() != len {
            proof {
                assert(views(frames@)[i as int].len() != views(frames@)[0].len());
            }
            return Err(SelectError::LengthMismatch);
        }
        i += 1;
    }
    let ghost fs = views(frames@);
    proof {
        assert(fs.len() == frames@.len());
        assert(forall|j: int| 0 <= j < fs.len() ==> (#[trigger] fs[j]).len() == len);
    }
    let mut res: Vec<u8> = Vec::new();
    let mut idx: usize = 0;
    while idx < len
        invariant
            idx <= len,
            n == frames@.len(),
            n > 0,
            len == frames@[0]@.len(),
            fs == views(frames@),
            forall|j: int| 0 <= j < n ==> (#[trigger] frames@[j])@.len() == len,
            res@.len() == idx,
            forall|p: int| 0 <= p < idx ==> majority_pick(fs, p, #[trigger] res@[p]),
        decreases len - idx,
    {
        let mut counts: Vec<usize> = Vec::new();
        let mut z: usize = 0;
        while z < 256
            invariant
                z <= 256,
                counts@.len() == z,
                forall|u: int| 0 <= u < z ==> (#[trigger] counts@[u]) == 0,
            decreases 256 - z,
        {
            counts.push(0);
            z += 1;
        }
        let mut k: usize = 0;
        while k < n
            invariant
                k <= n,
                n == frames@.len(),
                idx < len,
                fs == views(frames@),
                forall|j: int| 0 <= j < n ==> (#[trigger] frames@[j])@.len() == len,
                counts@.len() == 256,
                forall|u: int|
                    0 <= u < 256 ==> (#[trigger] counts@[u]) == count_upto(
                        fs,
                        k as int,
                        idx as int,
                        u as u8,
                    ),
                forall|u: int| 0 <= u < 256 ==> (#[trigger] counts@[u]) <= k,
            decreases n - k,
        {
            let b = frames[k][idx];
            let ghost counts0 = counts@;
            let c = counts[b as usize];
            counts.set(b as usize, c + 1);
            proof {
                assert(fs[k as int] == frames@[k as int]@);
                assert forall|u: int| 0 <= u < 256 implies (#[trigger] counts@[u]) == count_upto(
                    fs,
                    k + 1,
                    idx as int,
                    u as u8,
                ) by {
                    assert(count_upto(fs, k + 1, idx as int, u as u8) == count_upto(
                        fs,
                        k as int,
                        idx as int,
                        u as u8,
                    ) + if fs[k as int][idx as int] == u as u8 {
                        1int
                    } else {
                        0int
                    });
                    if u == b as int {
                        assert(counts@[u] == counts0[u] + 1);
                    } else {
                        assert(counts@[u] == counts0[u]);
                    }
                }
            }
            k += 1;
        }
        let mut best: usize = 0;
        let mut v: usize = 1;
        while v < 256
            invariant
                1 <= v <= 256,
                (best as int) < v,
                counts@.len() == 256,
                forall|u: int| 0 <= u < v ==> (#[trigger] counts@[u]) <= counts@[best as int],
                forall|u: int|
                    0 <= u < v && (#[trigger] counts@[u]) == counts@[best as int] ==> best <= u,
            decreases 256 - v,
        {
            if counts[v] > counts[best] {
                best = v;
            }
            v += 1;
        }
        proof {
            assert(fs.len() == n);
            assert(majority_pick(fs, idx as int, best as u8)) by {
                assert forall|w: u8|
                    #![trigger count_value(fs, idx as int, w)]
                    count_value(fs, idx as int, w) <= count_value(fs, idx as int, best as u8) && (
                count_value(fs, idx as int, w) == count_value(fs, idx as int, best as u8)
                    ==> best as u8 <= w) by {
                    assert(counts@[w as int] == count_upto(fs, n as int, idx as int, w));
                    assert(counts@[best as int] == count_upto(fs, n as int, idx as int, best as u8));
                }
            }
        }
        res.push(best as u8);
        idx += 1;
    }
    Ok(res)
}

/// The summed compressed diff size of the first `k` corpus members
/// against `base`.
pub open spec fn total_upto(fs: Seq<Seq<u8>>, base: Seq<u8>, k: int) -> int
    decreases k,
{
    if k <= 0 {
        0
    } else {
        total_upto(fs, base, k - 1) + codec::compressed(delta::seq_diff(base, fs[k - 1])).len()
    }
}

/// The total stored size of the corpus with `base` as the reference: the
/// sum over all frames of the length of the compressed diff.
pub open spec fn total_size(fs: Seq<Seq<u8>>, base: Seq<u8>) -> int {
    total_upto(fs, base, fs.len() as int)
}

/// compute the total size of all the frames if we use the specified
/// frame as a base. The bound in the requires keeps the byte total
/// within `usize`: no compressed frame exceeds twice its source.
pub fn compute_size_from_base(base: &[u8], frames: &[Vec<u8>]) -> (size: usize)
    requires
        forall|i: int| 0 <= i < frames@.len() ==> (#[trigger] frames@[i])@.len() == base@.len(),
        2 * base@.len() * frames@.len() <= usize::MAX,
    ensures
        size == total_size(views(frames@), base@),
{
    let n = frames.len();
    let ghost fs = views(frames@);
    let mut size: usize = 0;
    let mut k: usize = 0;
    while k < n
        invariant
            k <= n,
            n == frames@.len(),
            fs == views(frames@),
            forall|i: int| 0 <= i < frames@.len() ==> (#[trigger] frames@[i])@.len() == base@.len(),
            2 * base@.len() * frames@.len() <= usize::MAX,
            size == total_upto(fs, base@, k as int),
            size <= 2 * base@.len() * k,
        decreases n - k,
    {
        let c = delta::generate_from_base(base, frames[k].as_slice());
        proof {
            assert(fs[k as int] == frames@[k as int]@);
            codec::lemma_compressed_len(delta::seq_diff(base@, frames@[k as int]@));
            assert(2 * base@.len() * (k + 1) == 2 * base@.len() * k + 2 * base@.len())
                by (nonlinear_arith);
            assert(2 * base@.len() * (k + 1) <= 2 * base@.len() * n) by (nonlinear_arith)
                requires
                    0 <= k,
                    k + 1 <= n,
                    base@.len() >= 0,
            ;
        }
        size = size + c.len();
        k += 1;
    }
    size
}

/// `k` indexes the corpus member whose choice as base minimizes the
/// total compressed size, the earliest such member on a tie.
pub open spec fn optimal_choice(fs: Seq<Seq<u8>>, k: int) -> bool {
    &&& 0 <= k < fs.len()
    &&& forall|j: int|
        0 <= j < fs.len() ==> total_size(fs, fs[k]) <= #[trigger] total_size(fs, fs[j])
    &&& forall|j: int| 0 <= j < k ==> #[trigger] total_size(fs, fs[j]) > total_size(fs, fs[k])
}

/// The minimal-total-size policy never does worse than naively taking
/// the first corpus member as the base.
pub proof fn lemma_optimal_not_worse_than_first(fs: Seq<Seq<u8>>, k: int)
    requires
        fs.len() > 0,
        optimal_choice(fs, k),
    ensures
        total_size(fs, fs[k]) <= total_size(fs, fs[0]),
{
}

/// The minimal-total-size policy ("optimal/slow"): hypothesizes each
/// corpus member as the base, sums the compressed diff sizes over the
/// whole corpus, and returns the member with the smallest total, ties
/// broken by first occurrence in corpus order. Rejects an empty corpus
/// and frames of unequal lengths.
pub fn generate_base_frame(frames: &[Vec<u8>]) -> (res: Result<Vec<u8>, SelectError>)
    requires
        frames@.len() > 0 ==> 2 * frames@[0]@.len() * frames@.len() <= usize::MAX,
    ensures
        res is Ok <==> frames@.len() > 0 && equal_lengths(views(frames@)),
        match res {
            Ok(v) => exists|k: int|
                #[trigger] optimal_choice(views(frames@), k) && v@ == views(frames@)[k],
            Err(e) => match e {
                SelectError::EmptyCorpus => frames@.len() == 0,
                SelectError::LengthMismatch => frames@.len() > 0 && !equal_lengths(
                    views(frames@),
                ),
            },
        },
{
    let n = frames.len();
    if n == 0 {
        return Err(SelectError::EmptyCorpus);
    }
    let len = frames[0].len();
    let mut i: usize = 1;
    while i < n
        invariant
            1 <= i <= n,
            n == frames@.len(),
            len == frames@[0]@.len(),
            forall|j: int| 0 <= j < i ==> (#[trigger] frames@[j])@.len() == len,
        decreases n - i,
    {
        if frames[i].len() != len {
            proof {
                assert(views(frames@)[i as int].len() != views(frames@)[0].len());
            }
            return Err(SelectError::LengthMismatch);
        }
        i += 1;
    }
    let ghost fs = views(frames@);
    proof {
        assert(forall|j: int| 0 <= j < fs.len() ==> (#[trigger] fs[j]).len() == len);
    }
    let mut best_idx: usize = 0;
    let mut best = compute_size_from_base(frames[0].as_slice(), frames);
    let mut k: usize = 1;
    while k < n
        invariant
            1 <= k <= n,
            n == frames@.len(),
            len == frames@[0]@.len(),
            fs == views(frames@),
            frames@.len() > 0 ==> 2 * frames@[0]@.len() * frames@.len() <= usize::MAX,
            forall|j: int| 0 <= j < n ==> (#[trigger] frames@[j])@.len() == len,
            (best_idx as int) < k,
            best == total_size(fs, fs[best_idx as int]),
            forall|j: int| 0 <= j < k ==> #[trigger] total_size(fs, fs[j]) >= best,
            forall|j: int| 0 <= j < best_idx ==> #[trigger] total_size(fs, fs[j]) > best,
        decreases n - k,
    {
        let s = compute_size_from_base(frames[k].as_slice(), frames);
        if s < best {
            best = s;
            best_idx = k;
        }
        k += 1;
    }
    let src = &frames[best_idx];
    let mut out: Vec<u8> = Vec::new();
    let mut t: usize = 0;
    while t < src.len()
        invariant
            t <= src@.len(),
            out@ == src@.subrange(0, t as int),
        decreases src@.len() - t,
    {
        out.push(src[t]);
        proof {
            assert(out@ =~= src@.subrange(0, t + 1));
        }
        t += 1;
    }
    proof {
        assert(out@ =~= src@);
        assert(optimal_choice(fs, best_idx as int));
    }
    Ok(out)
}

} // verus!
