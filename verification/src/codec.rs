//! The two-mode run-length codec.
//!
//! A compressed stream is a sequence of records, each a control byte
//! followed by payload. Bit 7 of the control byte selects the mode; the low
//! seven bits hold a count `n` between 1 and 127.
//!
//! * Bit 7 clear ("repeat mode"): one payload byte follows and is emitted
//!   `n` times.
//! * Bit 7 set ("literal mode"): `n` payload bytes follow and are emitted
//!   verbatim.
//!
//! Compression runs in two passes: the first cuts the input into maximal
//! runs of one repeated byte, split at 127; the second coalesces groups
//! of two or more consecutive length-1 runs into literal-mode records,
//! again at most 127 values per record. A lone length-1 run stays a
//! repeat-mode record of count 1, as does every longer run.

use vstd::prelude::*;

verus! {

/// The length of the leading run of equal bytes in `s`, capped at 127, the
/// largest count a control byte can carry.
pub open spec fn run_of(s: Seq<u8>) -> int
    recommends
        s.len() > 0,
    decreases s.len(),
{
    if s.len() <= 1 {
        1
    } else if s[1] != s[0] {
        1
    } else if run_of(s.skip(1)) >= 127 {
        127
    } else {
        run_of(s.skip(1)) + 1
    }
}

/// Basic shape of `run_of`: a positive count within the cap whose bytes
/// all equal the first, stopping only at the end, the cap, or a new byte.
pub proof fn lemma_run_of_props(s: Seq<u8>)
    requires
        s.len() > 0,
    ensures
        1 <= run_of(s),
        run_of(s) <= s.len(),
        run_of(s) <= 127,
        forall|k: int| 0 <= k < run_of(s) ==> #[trigger] s[k] == s[0],
        run_of(s) < s.len() && run_of(s) < 127 ==> s[run_of(s)] != s[0],
    decreases s.len(),
{
    if s.len() <= 1 {
    } else if s[1] != s[0] {
    } else {
        let tail = s.skip(1);
        lemma_run_of_props(tail);
        let r1 = run_of(tail);
        assert(forall|k: int| 0 <= k < tail.len() ==> tail[k] == s[k + 1]);
        let r = run_of(s);
        assert forall|k: int| 0 <= k < r implies #[trigger] s[k] == s[0] by {
            if k > 0 {
                assert(tail[k - 1] == tail[0]);
            }
        }
        if r < s.len() && r < 127 {
            assert(r == r1 + 1);
            assert(tail[r1] != tail[0]);
        }
    }
}

/// `run_of` is pinned by the run's visible shape: `n` leading copies of the
/// first byte that stop at the end, at the cap, or at a different byte.
proof fn lemma_run_of_is(s: Seq<u8>, n: int)
    requires
        s.len() > 0,
        1 <= n <= s.len(),
        n <= 127,
        forall|k: int| 0 <= k < n ==> #[trigger] s[k] == s[0],
        n == s.len() || n == 127 || s[n] != s[0],
    ensures
        run_of(s) == n,
{
    lemma_run_of_props(s);
    let r = run_of(s);
    if r < n {
        assert(s[r] == s[0]);
        assert(false);
    }
    if r > n {
        assert(s[n] == s[0]);
        assert(false);
    }
}

/// First pass of the compressor: the (count, value) pairs of the maximal
/// runs of `s`, each run split at 127.
pub open spec fn rle(s: Seq<u8>) -> Seq<(u8, u8)>
    decreases s.len(),
{
    if s.len() == 0 {
        Seq::empty()
    } else {
        proof {
            lemma_run_of_props(s);
        }
        seq![(run_of(s) as u8, s[0])] + rle(s.skip(run_of(s)))
    }
}

proof fn lemma_rle_step(s: Seq<u8>, n: int)
    requires
        s.len() > 0,
        1 <= n <= s.len(),
        n <= 127,
        forall|k: int| 0 <= k < n ==> #[trigger] s[k] == s[0],
        n == s.len() || n == 127 || s[n] != s[0],
    ensures
        rle(s) == seq![(n as u8, s[0])] + rle(s.skip(n)),
{
    lemma_run_of_is(s, n);
}

/// Every count of the first pass fits a control byte.
pub open spec fn wf_pairs(ps: Seq<(u8, u8)>) -> bool {
    forall|i: int| 0 <= i < ps.len() ==> 1 <= (#[trigger] ps[i]).0 <= 127
}

/// The number of consecutive leading pairs of count 1, capped at 127: the
/// size of the literal-mode record the second pass forms here.
pub open spec fn singles_of(ps: Seq<(u8, u8)>) -> int
    decreases ps.len(),
{
    if ps.len() == 0 {
        0
    } else if ps[0].0 != 1 {
        0
    } else if singles_of(ps.skip(1)) >= 127 {
        127
    } else {
        singles_of(ps.skip(1)) + 1
    }
}

/// Basic shape of `singles_of`: a count within the cap of leading pairs
/// that all carry count 1.
pub proof fn lemma_singles_of_props(ps: Seq<(u8, u8)>)
    ensures
        0 <= singles_of(ps),
        singles_of(ps) <= ps.len(),
        singles_of(ps) <= 127,
        forall|k: int| 0 <= k < singles_of(ps) ==> (#[trigger] ps[k]).0 == 1,
        ps.len() > 0 && ps[0].0 == 1 ==> singles_of(ps) >= 1,
        singles_of(ps) < ps.len() && singles_of(ps) < 127 ==> ps[singles_of(ps)].0 != 1,
    decreases ps.len(),
{
    if ps.len() == 0 {
    } else if ps[0].0 != 1 {
    } else {
        let tail = ps.skip(1);
        lemma_singles_of_props(tail);
        let r1 = singles_of(tail);
        assert(forall|k: int| 0 <= k < tail.len() ==> tail[k] == ps[k + 1]);
        let r = singles_of(ps);
        assert forall|k: int| 0 <= k < r implies (#[trigger] ps[k]).0 == 1 by {
            if k > 0 {
                assert(tail[k - 1].0 == 1);
            }
        }
        if r < ps.len() && r < 127 {
            assert(r == r1 + 1);
            assert(tail[r1].0 != 1);
        }
    }
}

proof fn lemma_singles_of_is(ps: Seq<(u8, u8)>, k: int)
    requires
        ps.len() > 0,
        ps[0].0 == 1,
        1 <= k <= ps.len(),
        k <= 127,
        forall|t: int| 0 <= t < k ==> (#[trigger] ps[t]).0 == 1,
        k == ps.len() || k == 127 || ps[k].0 != 1,
    ensures
        singles_of(ps) == k,
{
    lemma_singles_of_props(ps);
    let r = singles_of(ps);
    if r < k {
        assert(ps[r].0 == 1);
        assert(false);
    }
    if r > k {
        assert(ps[k].0 == 1);
        assert(false);
    }
}

/// The values of a sequence of (count, value) pairs.
pub open spec fn pair_values(ps: Seq<(u8, u8)>) -> Seq<u8> {
    Seq::new(ps.len(), |i: int| ps[i].1)
}

/// Second pass of the compressor: the wire bytes for a pair sequence.
/// Two or more consecutive pairs of count 1 are grouped into a
/// literal-mode record of up to 127 values; every other pair — a lone
/// count-1 run included — becomes a repeat-mode record of two bytes.
pub open spec fn emit(ps: Seq<(u8, u8)>) -> Seq<u8>
    decreases ps.len(),
{
    if ps.len() == 0 {
        Seq::empty()
    } else if ps[0].0 == 1 && singles_of(ps) >= 2 {
        proof {
            lemma_singles_of_props(ps);
        }
        seq![(singles_of(ps) as u8) | 0x80] + pair_values(ps.take(singles_of(ps))) + emit(
            ps.skip(singles_of(ps)),
        )
    } else {
        seq![ps[0].0, ps[0].1] + emit(ps.skip(1))
    }
}

proof fn lemma_emit_step_literal(ps: Seq<(u8, u8)>, k: int)
    requires
        ps.len() > 0,
        ps[0].0 == 1,
        2 <= k <= ps.len(),
        k <= 127,
        forall|t: int| 0 <= t < k ==> (#[trigger] ps[t]).0 == 1,
        k == ps.len() || k == 127 || ps[k].0 != 1,
    ensures
        emit(ps) == seq![(k as u8) | 0x80] + pair_values(ps.take(k)) + emit(ps.skip(k)),
{
    lemma_singles_of_is(ps, k);
}

proof fn lemma_emit_step_repeat(ps: Seq<(u8, u8)>)
    requires
        ps.len() > 0,
        ps[0].0 != 1 || singles_of(ps) < 2,
    ensures
        emit(ps) == seq![ps[0].0, ps[0].1] + emit(ps.skip(1)),
{
}

/// What a compressed byte stream stands for: the bytes of `s`, cut into
/// maximal runs and written as control-byte-led records.
pub open spec fn compressed(s: Seq<u8>) -> Seq<u8> {
    emit(rle(s))
}

/// compress a slice of `u8`.
///
/// Cuts the input into maximal runs of one repeated byte (at most 127 per
/// record), then coalesces two or more consecutive single bytes into a
/// literal-mode record; every other run, a lone single byte included,
/// becomes a repeat-mode record. For example, `[1, 1, 1, 1]` becomes
/// `[4, 1]`, while `[1, 2, 3, 4]` becomes `[0b1000_0100, 1, 2, 3, 4]`.
pub fn compress(data: &[u8]) -> (res: Vec<u8>)
    ensures
        res@ == compressed(data@),
{
    let mut pairs: Vec<(u8, u8)> = Vec::new();
    let mut i: usize = 0;
    proof {
        assert(data@.skip(0) =~= data@);
        assert(Seq::<(u8, u8)>::empty() + rle(data@) =~= rle(data@));
    }
    while i < data.len()
        invariant
            i <= data@.len(),
            rle(data@) == pairs@ + rle(data@.skip(i as int)),
            wf_pairs(pairs@),
        decreases data@.len() - i,
    {
        let v = data[i];
        let mut j: usize = i + 1;
        while j < data.len() && j - i < 127 && data[j] == v
            invariant
                i < j <= data@.len(),
                j - i <= 127,
                i < data@.len(),
                v == data@[i as int],
                forall|k: int| i <= k < j ==> data@[k] == v,
            decreases data@.len() - j,
        {
            j += 1;
        }
        proof {
            let ss = data@.skip(i as int);
            let n = j as int - i as int;
            assert(forall|k: int| 0 <= k < ss.len() ==> ss[k] == data@[i + k]);
            assert(forall|k: int| 0 <= k < n ==> #[trigger] ss[k] == ss[0]);
            assert(n == ss.len() || n == 127 || ss[n] != ss[0]);
            lemma_rle_step(ss, n);
            assert(ss.skip(n) =~= data@.skip(j as int));
            assert(pairs@ + (seq![(n as u8, v)] + rle(data@.skip(j as int))) =~= (pairs@ + seq![
                (n as u8, v),
            ]) + rle(data@.skip(j as int)));
        }
        pairs.push(((j - i) as u8, v));
        i = j;
    }
    proof {
        assert(data@.skip(i as int) =~= Seq::<u8>::empty());
        assert(pairs@ + rle(Seq::<u8>::empty()) =~= pairs@);
    }
    let mut res: Vec<u8> = Vec::new();
    let mut p: usize = 0;
    proof {
        assert(pairs@.skip(0) =~= pairs@);
        assert(Seq::<u8>::empty() + emit(pairs@) =~= emit(pairs@));
    }
    while p < pairs.len()
        invariant
            p <= pairs@.len(),
            wf_pairs(pairs@),
            rle(data@) == pairs@,
            emit(pairs@) == res@ + emit(pairs@.skip(p as int)),
        decreases pairs@.len() - p,
    {
        let ghost res0 = res@;
        let (c, v) = pairs[p];
        if c == 1 {
            let mut q: usize = p + 1;
            while q < pairs.len() && q - p < 127 && pairs[q].0 == 1
                invariant
                    p < q <= pairs@.len(),
                    q - p <= 127,
                    p < pairs@.len(),
                    pairs@[p as int].0 == 1,
                    forall|k: int| p <= k < q ==> pairs@[k].0 == 1,
                decreases pairs@.len() - q,
            {
                q += 1;
            }
            let k = q - p;
            if k == 1 {
                // a lone singleton run stays a repeat-mode record
                res.push(c);
                res.push(v);
                proof {
                    let sp = pairs@.skip(p as int);
                    assert(forall|t: int| 0 <= t < sp.len() ==> sp[t] == pairs@[p + t]);
                    assert(forall|t: int| 0 <= t < 1 ==> (#[trigger] sp[t]).0 == 1);
                    assert(1 == sp.len() || 1 == 127 || sp[1].0 != 1);
                    lemma_singles_of_is(sp, 1);
                    lemma_emit_step_repeat(sp);
                    assert(sp.skip(1) =~= pairs@.skip(p as int + 1));
                    assert(emit(pairs@) == res0 + emit(sp));
                    assert(res0 + (seq![c, v] + emit(sp.skip(1))) =~= res@ + emit(
                        pairs@.skip(p as int + 1),
                    ));
                }
                p = q;
                continue;
            }
            proof {
                let sp = pairs@.skip(p as int);
                let kk = k as int;
                assert(forall|t: int| 0 <= t < sp.len() ==> sp[t] == pairs@[p + t]);
                assert(forall|t: int| 0 <= t < kk ==> (#[trigger] sp[t]).0 == 1);
                assert(kk == sp.len() || kk == 127 || sp[kk].0 != 1);
                lemma_emit_step_literal(sp, kk);
                assert(sp.skip(kk) =~= pairs@.skip(q as int));
                assert(sp.take(kk) =~= pairs@.subrange(p as int, q as int));
            }
            res.push((k as u8) | 0x80);
            let ghost mid = res@;
            proof {
                assert(pairs@.subrange(p as int, p as int) =~= Seq::<(u8, u8)>::empty());
                assert(mid + pair_values(pairs@.subrange(p as int, p as int)) =~= mid);
            }
            let mut t: usize = p;
            while t < q
                invariant
                    p <= t <= q,
                    q <= pairs@.len(),
                    res@ == mid + pair_values(pairs@.subrange(p as int, t as int)),
                decreases q - t,
            {
                let (_tc, tv) = pairs[t];
                res.push(tv);
                proof {
                    assert(res@ =~= mid + pair_values(
                        pairs@.subrange(p as int, t as int + 1),
                    ));
                }
                t += 1;
            }
            proof {
                let sp = pairs@.skip(p as int);
                assert(res@ =~= mid + pair_values(sp.take(k as int)));
                assert(emit(pairs@) == res0 + emit(sp));
                assert(res0 + (seq![(k as u8) | 0x80] + pair_values(sp.take(k as int)) + emit(
                    sp.skip(k as int),
                )) =~= res@ + emit(pairs@.skip(q as int)));
            }
            p = q;
        } else {
            res.push(c);
            res.push(v);
            proof {
                let sp = pairs@.skip(p as int);
                assert(sp[0] == pairs@[p as int]);
                lemma_emit_step_repeat(sp);
                assert(sp.skip(1) =~= pairs@.skip(p as int + 1));
                assert(emit(pairs@) == res0 + emit(sp));
                assert(res0 + (seq![c, v] + emit(sp.skip(1))) =~= res@ + emit(
                    pairs@.skip(p as int + 1),
                ));
            }
            p += 1;
        }
    }
    proof {
        assert(pairs@.skip(p as int) =~= Seq::<(u8, u8)>::empty());
        assert(res@ + emit(Seq::<(u8, u8)>::empty()) =~= res@);
    }
    res
}

/// The byte sequence a compressed stream stands for, or `None` when a
/// control byte demands more payload than the stream still holds.
pub open spec fn decode(s: Seq<u8>) -> Option<Seq<u8>>
    decreases s.len(),
{
    if s.len() == 0 {
        Some(Seq::empty())
    } else {
        let c = s[0];
        let n = (c & 0x7f) as int;
        if c >= 128 {
            if s.len() >= 1 + n {
                match decode(s.skip(1 + n)) {
                    Some(rest) => Some(s.subrange(1, 1 + n) + rest),
                    None => None,
                }
            } else {
                None
            }
        } else {
            if s.len() >= 2 {
                match decode(s.skip(2)) {
                    Some(rest) => Some(Seq::new(n as nat, |i: int| s[1]) + rest),
                    None => None,
                }
            } else {
                None
            }
        }
    }
}

/// The decoded bytes of a well-formed stream; an ill-formed stream is
/// mapped to the empty sequence only to keep the function total.
pub open spec fn decoded(s: Seq<u8>) -> Seq<u8> {
    match decode(s) {
        Some(t) => t,
        None => Seq::empty(),
    }
}

proof fn lemma_decode_prepend_repeat(c: u8, v: u8, rest: Seq<u8>, t: Seq<u8>)
    requires
        1 <= c <= 127,
        decode(rest) == Some(t),
    ensures
        decode(seq![c, v] + rest) == Some(Seq::new(c as nat, |i: int| v) + t),
{
    let s = seq![c, v] + rest;
    assert(s[0] == c && s[1] == v);
    assert(c < 128 ==> (c & 0x7f) == c) by (bit_vector);
    assert(s.skip(2) =~= rest);
    assert(Seq::new(c as nat, |i: int| s[1]) =~= Seq::new(c as nat, |i: int| v));
}

proof fn lemma_decode_prepend_literal(k: int, lits: Seq<u8>, rest: Seq<u8>, t: Seq<u8>)
    requires
        1 <= k <= 127,
        lits.len() == k,
        decode(rest) == Some(t),
    ensures
        decode(seq![(k as u8) | 0x80] + lits + rest) == Some(lits + t),
{
    let s = seq![(k as u8) | 0x80] + lits + rest;
    let kb = k as u8;
    assert(kb <= 127 ==> ((kb | 0x80) & 0x7f) == kb && (kb | 0x80) >= 128) by (bit_vector);
    assert(s[0] == (kb | 0x80));
    assert(s.len() == 1 + k + rest.len());
    assert(s.subrange(1, 1 + k) =~= lits);
    assert(s.skip(1 + k) =~= rest);
}

/// What a pair sequence stands for: each count's worth of its value.
pub open spec fn expand(ps: Seq<(u8, u8)>) -> Seq<u8>
    decreases ps.len(),
{
    if ps.len() == 0 {
        Seq::empty()
    } else {
        Seq::new(ps[0].0 as nat, |i: int| ps[0].1) + expand(ps.skip(1))
    }
}

/// The first pass loses nothing: expanding the runs gives the input back.
proof fn lemma_expand_rle(s: Seq<u8>)
    ensures
        wf_pairs(rle(s)),
        expand(rle(s)) == s,
    decreases s.len(),
{
    if s.len() == 0 {
        assert(expand(rle(s)) =~= s);
    } else {
        lemma_run_of_props(s);
        let n = run_of(s);
        lemma_expand_rle(s.skip(n));
        let ps = rle(s);
        assert(ps == seq![(n as u8, s[0])] + rle(s.skip(n)));
        assert forall|i: int| 0 <= i < ps.len() implies 1 <= (#[trigger] ps[i]).0 <= 127 by {
            if i > 0 {
                assert(ps[i] == rle(s.skip(n))[i - 1]);
            }
        }
        assert(ps.skip(1) =~= rle(s.skip(n)));
        assert(expand(ps) == Seq::new(n as nat, |i: int| s[0]) + expand(ps.skip(1)));
        assert(expand(ps) =~= s);
    }
}

/// Pairs of count 1 expand to exactly their values.
proof fn lemma_expand_singles(ps: Seq<(u8, u8)>, k: int)
    requires
        0 <= k <= ps.len(),
        forall|t: int| 0 <= t < k ==> (#[trigger] ps[t]).0 == 1,
    ensures
        expand(ps) == pair_values(ps.take(k)) + expand(ps.skip(k)),
    decreases k,
{
    if k == 0 {
        assert(ps.skip(0) =~= ps);
        assert(pair_values(ps.take(0)) + expand(ps) =~= expand(ps));
    } else {
        let tail = ps.skip(1);
        assert(forall|t: int| 0 <= t < tail.len() ==> #[trigger] tail[t] == ps[t + 1]);
        lemma_expand_singles(tail, k - 1);
        assert(expand(ps) == Seq::new(1 as nat, |i: int| ps[0].1) + expand(tail));
        assert(tail.skip(k - 1) =~= ps.skip(k));
        assert(Seq::new(1 as nat, |i: int| ps[0].1) + (pair_values(tail.take(k - 1)) + expand(
            ps.skip(k),
        )) =~= pair_values(ps.take(k)) + expand(ps.skip(k)));
    }
}

/// Decoding the second pass's records gives the expansion of its pairs.
proof fn lemma_decode_emit(ps: Seq<(u8, u8)>)
    requires
        wf_pairs(ps),
    ensures
        decode(emit(ps)) == Some(expand(ps)),
    decreases ps.len(),
{
    if ps.len() == 0 {
        assert(decode(emit(ps)) == Some(expand(ps)));
    } else if ps[0].0 == 1 && singles_of(ps) >= 2 {
        lemma_singles_of_props(ps);
        let k = singles_of(ps);
        let rest = ps.skip(k);
        assert(forall|t: int| 0 <= t < rest.len() ==> #[trigger] rest[t] == ps[t + k]);
        lemma_decode_emit(rest);
        let lits = pair_values(ps.take(k));
        lemma_decode_prepend_literal(k, lits, emit(rest), expand(rest));
        assert(seq![(k as u8) | 0x80] + lits + emit(rest) =~= emit(ps));
        lemma_expand_singles(ps, k);
    } else {
        let rest = ps.skip(1);
        assert(forall|t: int| 0 <= t < rest.len() ==> #[trigger] rest[t] == ps[t + 1]);
        lemma_decode_emit(rest);
        lemma_decode_prepend_repeat(ps[0].0, ps[0].1, emit(rest), expand(rest));
        assert(seq![ps[0].0, ps[0].1] + emit(rest) =~= emit(ps));
        assert(Seq::new(ps[0].0 as nat, |i: int| ps[0].1) + expand(rest) == expand(ps));
    }
}

/// The codec round trip: decompressing a compressed stream gives back the
/// original byte sequence, whatever it was.
pub proof fn lemma_compress_round_trip(s: Seq<u8>)
    ensures
        decode(compressed(s)) == Some(s),
{
    lemma_expand_rle(s);
    lemma_decode_emit(rle(s));
}

proof fn lemma_emit_len(ps: Seq<(u8, u8)>)
    requires
        wf_pairs(ps),
    ensures
        emit(ps).len() <= 2 * ps.len(),
    decreases ps.len(),
{
    if ps.len() == 0 {
    } else if ps[0].0 == 1 && singles_of(ps) >= 2 {
        lemma_singles_of_props(ps);
        let k = singles_of(ps);
        let rest = ps.skip(k);
        assert(forall|t: int| 0 <= t < rest.len() ==> #[trigger] rest[t] == ps[t + k]);
        lemma_emit_len(rest);
    } else {
        let rest = ps.skip(1);
        assert(forall|t: int| 0 <= t < rest.len() ==> #[trigger] rest[t] == ps[t + 1]);
        lemma_emit_len(rest);
    }
}

proof fn lemma_expand_len(ps: Seq<(u8, u8)>)
    requires
        wf_pairs(ps),
    ensures
        expand(ps).len() >= ps.len(),
    decreases ps.len(),
{
    if ps.len() == 0 {
    } else {
        let rest = ps.skip(1);
        assert(forall|t: int| 0 <= t < rest.len() ==> #[trigger] rest[t] == ps[t + 1]);
        lemma_expand_len(rest);
        assert(ps[0].0 >= 1);
    }
}

/// A compressed stream is never longer than twice its source: each run
/// costs at most two bytes.
pub proof fn lemma_compressed_len(s: Seq<u8>)
    ensures
        compressed(s).len() <= 2 * s.len(),
{
    lemma_expand_rle(s);
    lemma_emit_len(rle(s));
    lemma_expand_len(rle(s));
}

/// A compressed stream that ends inside a record.
#[derive(Clone, Copy, Debug, PartialEq, Eq)]
pub enum CodecError {
    Truncated,
}

/// uncompress a frame, this method mostly exists for testing purpose.
///
/// Reads one control-byte-led record at a time; a control byte that
/// demands more payload bytes than remain is a fatal decode error.
pub fn uncompress(data: &[u8]) -> (res: Result<Vec<u8>, CodecError>)
    ensures
        match res {
            Ok(v) => decode(data@) == Some(v@),
            Err(_) => decode(data@) is None,
        },
{
    let mut out: Vec<u8> = Vec::new();
    let mut i: usize = 0;
    proof {
        assert(data@.skip(0) =~= data@);
        assert(forall|t: Seq<u8>| Seq::<u8>::empty() + t =~= t);
    }
    while i < data.len()
        invariant
            i <= data@.len(),
            match decode(data@.skip(i as int)) {
                Some(t) => decode(data@) == Some(out@ + t),
                None => decode(data@) is None,
            },
        decreases data@.len() - i,
    {
        let ghost pre = data@.skip(i as int);
        let c = data[i];
        let n = (c & 0x7f) as usize;
        proof {
            assert(pre.len() == data@.len() - i);
            assert(forall|k: int| 0 <= k < pre.len() ==> #[trigger] pre[k] == data@[i + k]);
            assert(c < 128 ==> (c & 0x7f) == c) by (bit_vector);
            assert((c & 0x7f) <= 127 && (c & 0x7f) <= c) by (bit_vector);
        }
        if c >= 128 {
            if data.len() - i - 1 < n {
                proof {
                    assert(pre.len() < 1 + n);
                    assert(decode(pre) is None);
                }
                return Err(CodecError::Truncated);
            }
            let ghost out0 = out@;
            let mut t: usize = 0;
            proof {
                assert(out0 + data@.subrange(i + 1, i + 1) =~= out0);
            }
            while t < n
                invariant
                    t <= n,
                    i + 1 + n <= data@.len(),
                    i + 1 + n <= usize::MAX,
                    out@ == out0 + data@.subrange(i as int + 1, i as int + 1 + t),
                decreases n - t,
            {
                out.push(data[i + 1 + t]);
                proof {
                    assert(out@ =~= out0 + data@.subrange(i as int + 1, i as int + 1 + t + 1));
                }
                t += 1;
            }
            i = i + 1 + n;
            proof {
                assert(pre.skip(1 + n) =~= data@.skip(i as int));
                assert(pre.subrange(1, 1 + n) =~= data@.subrange(
                    i as int - n,
                    i as int,
                ));
                match decode(data@.skip(i as int)) {
                    Some(t2) => {
                        assert(decode(pre) == Some(pre.subrange(1, 1 + n as int) + t2));
                        assert(out0 + (pre.subrange(1, 1 + n as int) + t2) =~= out@ + t2);
                    },
                    None => {
                        assert(decode(pre) is None);
                    },
                }
            }
        } else {
            if data.len() - i < 2 {
                proof {
                    assert(pre.len() < 2);
                    assert(decode(pre) is None);
                }
                return Err(CodecError::Truncated);
            }
            let v = data[i + 1];
            let ghost out0 = out@;
            let mut t: usize = 0;
            proof {
                assert(out0 + Seq::new(0, |j: int| v) =~= out0);
            }
            while t < n
                invariant
                    t <= n,
                    out@ == out0 + Seq::new(t as nat, |j: int| v),
                decreases n - t,
            {
                out.push(v);
                proof {
                    assert(out@ =~= out0 + Seq::new((t + 1) as nat, |j: int| v));
                }
                t += 1;
            }
            i = i + 2;
            proof {
                assert(pre.skip(2) =~= data@.skip(i as int));
                assert(pre[1] == v);
                match decode(data@.skip(i as int)) {
                    Some(t2) => {
                        assert(decode(pre) == Some(Seq::new(n as nat, |j: int| pre[1]) + t2));
                        assert(Seq::new(n as nat, |j: int| pre[1]) =~= Seq::new(
                            n as nat,
                            |j: int| v,
                        ));
                        assert(out0 + (Seq::new(n as nat, |j: int| v) + t2) =~= out@ + t2);
                    },
                    None => {
                        assert(decode(pre) is None);
                    },
                }
            }
        }
    }
    proof {
        assert(data@.skip(i as int) =~= Seq::<u8>::empty());
        assert(out@ + Seq::<u8>::empty() =~= out@);
    }
    Ok(out)
}

/// uncompress a frame into a caller-supplied buffer, this method mostly
/// exists for testing purpose.
///
/// Writes the decoded bytes over the front of `output` and leaves the
/// rest of the buffer unchanged; the stream must be well formed and the
/// buffer at least as long as what it decodes to.
pub fn uncompress2(data: &[u8], output: &mut Vec<u8>)
    requires
        decode(data@) is Some,
        decoded(data@).len() <= old(output)@.len(),
    ensures
        final(output)@ == decoded(data@) + old(output)@.skip(decoded(data@).len() as int),
{
    let ghost orig = output@;
    let ghost whole = decoded(data@);
    let buf_len = output.len();
    let mut pos: usize = 0;
    let mut i: usize = 0;
    proof {
        assert(data@.skip(0) =~= data@);
        assert(whole.subrange(0, 0) =~= Seq::<u8>::empty());
        assert(Seq::<u8>::empty() + decoded(data@) =~= whole);
    }
    while i < data.len()
        invariant
            i <= data@.len(),
            pos <= whole.len(),
            whole.len() <= orig.len(),
            orig.len() == buf_len,
            output@.len() == orig.len(),
            decode(data@.skip(i as int)) is Some,
            whole == whole.subrange(0, pos as int) + decoded(data@.skip(i as int)),
            forall|j: int| 0 <= j < pos ==> #[trigger] output@[j] == whole[j],
            forall|j: int| pos <= j < orig.len() ==> #[trigger] output@[j] == orig[j],
        decreases data@.len() - i,
    {
        let ghost pre = data@.skip(i as int);
        let c = data[i];
        let n = (c & 0x7f) as usize;
        proof {
            assert(pre.len() == data@.len() - i);
            assert(forall|k: int| 0 <= k < pre.len() ==> #[trigger] pre[k] == data@[i + k]);
            assert(c < 128 ==> (c & 0x7f) == c) by (bit_vector);
            assert((c & 0x7f) <= 127 && (c & 0x7f) <= c) by (bit_vector);
        }
        if c >= 128 {
            proof {
                assert(pre.len() >= 1 + n);
                assert(decode(pre.skip(1 + n as int)) is Some);
                assert(decoded(pre) == pre.subrange(1, 1 + n as int) + decoded(
                    pre.skip(1 + n as int),
                ));
                assert(pos + n <= whole.len());
            }
            let ghost mark = pos as int;
            let mut t: usize = 0;
            while t < n
                invariant
                    t <= n,
                    0 <= mark,
                    pos == mark + t,
                    mark + n <= whole.len(),
                    whole.len() <= orig.len(),
                    orig.len() == buf_len,
                    i + 1 + n <= data@.len(),
                    i + 1 + n <= usize::MAX,
                    output@.len() == orig.len(),
                    forall|j: int| 0 <= j < mark ==> #[trigger] output@[j] == whole[j],
                    forall|j: int| mark <= j < pos ==> #[trigger] output@[j] == data@[
                        i + 1 + (j - mark)
                    ],
                    forall|j: int| pos <= j < orig.len() ==> #[trigger] output@[j] == orig[j],
                decreases n - t,
            {
                let ghost prev = output@;
                let b = data[i + 1 + t];
                output.set(pos, b);
                pos += 1;
                t += 1;
                proof {
                    assert(output@ == prev.update(pos - 1, b));
                    assert forall|j: int| mark <= j < pos implies #[trigger] output@[j] == data@[
                        i + 1 + (j - mark)
                    ] by {
                        if j < pos - 1 {
                            assert(prev.update(pos - 1, b)[j] == prev[j]);
                        } else {
                            assert(prev.update(pos - 1, b)[j] == b);
                        }
                    }
                }
            }
            i = i + 1 + n;
            proof {
                assert(pre.skip(1 + n as int) =~= data@.skip(i as int));
                assert(forall|j: int| mark <= j < pos ==> whole[j] == pre.subrange(
                    1,
                    1 + n as int,
                )[j - mark]);
                assert(whole =~= whole.subrange(0, pos as int) + decoded(data@.skip(i as int)));
            }
        } else {
            proof {
                assert(pre.len() >= 2);
                assert(decode(pre.skip(2)) is Some);
                assert(decoded(pre) == Seq::new(n as nat, |j: int| pre[1]) + decoded(pre.skip(2)));
                assert(pos + n <= whole.len());
            }
            let v = data[i + 1];
            let ghost mark = pos as int;
            let mut t: usize = 0;
            while t < n
                invariant
                    t <= n,
                    0 <= mark,
                    pos == mark + t,
                    mark + n <= whole.len(),
                    whole.len() <= orig.len(),
                    orig.len() == buf_len,
                    output@.len() == orig.len(),
                    forall|j: int| 0 <= j < mark ==> #[trigger] output@[j] == whole[j],
                    forall|j: int| mark <= j < pos ==> #[trigger] output@[j] == v,
                    forall|j: int| pos <= j < orig.len() ==> #[trigger] output@[j] == orig[j],
                decreases n - t,
            {
                let ghost prev = output@;
                output.set(pos, v);
                pos += 1;
                t += 1;
                proof {
                    assert(output@ == prev.update(pos - 1, v));
                    assert forall|j: int| mark <= j < pos implies #[trigger] output@[j] == v by {
                        if j < pos - 1 {
                            assert(prev.update(pos - 1, v)[j] == prev[j]);
                        } else {
                            assert(prev.update(pos - 1, v)[j] == v);
                        }
                    }
                }
            }
            i = i + 2;
            proof {
                assert(pre.skip(2) =~= data@.skip(i as int));
                assert(pre[1] == v);
                assert(forall|j: int| mark <= j < pos ==> whole[j] == Seq::new(
                    n as nat,
                    |q: int| pre[1],
                )[j - mark]);
                assert(whole =~= whole.subrange(0, pos as int) + decoded(data@.skip(i as int)));
            }
        }
    }
    proof {
        assert(data@.skip(i as int) =~= Seq::<u8>::empty());
        assert(decoded(Seq::<u8>::empty()) =~= Seq::<u8>::empty());
        assert(whole =~= whole.subrange(0, pos as int));
        assert(pos == whole.len());
        assert(output@ =~= whole + orig.skip(whole.len() as int));
    }
}

} // verus!
