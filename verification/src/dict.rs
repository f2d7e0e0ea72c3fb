//! Dictionary loading: normalize a raw word list to lowercase, drop
//! duplicates keeping first occurrences, and refuse an empty list.

use vstd::prelude::*;
use crate::WordleError;
use crate::filter::{word_views, words_equal};

verus! {

/// ASCII lowercasing of one byte: the letters `A`..`Z` map to `a`..`z`.
pub open spec fn lower_byte(b: u8) -> u8 {
    if 65 <= b <= 90 {
        (b + 32) as u8
    } else {
        b
    }
}

/// A word normalized to lowercase.
pub open spec fn lower_word(w: Seq<u8>) -> Seq<u8> {
    w.map_values(|b: u8| lower_byte(b))
}

/// The first-occurrence deduplication of the first `k` words of `ws`.
pub open spec fn dedup_prefix(ws: Seq<Seq<u8>>, k: int) -> Seq<Seq<u8>>
    decreases k,
{
    if k <= 0 {
        Seq::empty()
    } else {
        let d = dedup_prefix(ws, k - 1);
        if d.contains(ws[k - 1]) {
            d
        } else {
            d.push(ws[k - 1])
        }
    }
}

/// What a raw word list loads to: every word lowercased, duplicates dropped,
/// first occurrences kept in order.
pub open spec fn dictionary_of(raw: Seq<Seq<u8>>) -> Seq<Seq<u8>> {
    dedup_prefix(raw.map_values(|w: Seq<u8>| lower_word(w)), raw.len() as int)
}

/// Deduplication never grows a list.
pub proof fn lemma_dedup_len(ws: Seq<Seq<u8>>, k: int)
    requires
        k >= 0,
    ensures
        dedup_prefix(ws, k).len() <= k,
    decreases k,
{
    if k > 0 {
        lemma_dedup_len(ws, k - 1);
    }
}

/// Deduplication leaves no two equal words behind.
pub proof fn lemma_dedup_distinct(ws: Seq<Seq<u8>>, k: int)
    ensures
        forall|i: int, j: int|
            0 <= i < j < dedup_prefix(ws, k).len() ==> #[trigger] dedup_prefix(ws, k)[i] != (
            #[trigger] dedup_prefix(ws, k)[j]),
    decreases k,
{
    if k > 0 {
        lemma_dedup_distinct(ws, k - 1);
        let d = dedup_prefix(ws, k - 1);
        let out = dedup_prefix(ws, k);
        if !d.contains(ws[k - 1]) {
            assert forall|i: int, j: int| 0 <= i < j < out.len() implies #[trigger] out[i] != (
            #[trigger] out[j]) by {
                if j == out.len() - 1 {
                    assert(out[j] == ws[k - 1]);
                    assert(d[i] == out[i]);
                    assert(!d.contains(ws[k - 1]));
                }
            }
        }
    }
}

/// Loads a dictionary from a raw word list: normalizes every word to
/// lowercase, drops duplicates (the first occurrence wins), and fails with
/// `EmptyDictionary` exactly when the list holds no words at all.
pub fn load_dictionary(raw: &Vec<Vec<u8>>) -> (r: Result<Vec<Vec<u8>>, WordleError>)
    ensures
        match r {
            Ok(d) => raw@.len() > 0 && word_views(d@) == dictionary_of(word_views(raw@))
                && d@.len() <= raw@.len() && forall|i: int, j: int|
                0 <= i < j < d@.len() ==> #[trigger] word_views(d@)[i] != (
                #[trigger] word_views(d@)[j]),
            Err(e) => raw@.len() == 0 && e == WordleError::EmptyDictionary,
        },
{
    if raw.len() == 0 {
        return Err(WordleError::EmptyDictionary);
    }
    let ghost lws = word_views(raw@).map_values(|w: Seq<u8>| lower_word(w));
    let mut out: Vec<Vec<u8>> = Vec::new();
    proof {
        assert(word_views(out@) =~= dedup_prefix(lws, 0));
    }
    let mut i: usize = 0;
    while i < raw.len()
        invariant
            i <= raw@.len(),
            lws == word_views(raw@).map_values(|w: Seq<u8>| lower_word(w)),
            word_views(out@) == dedup_prefix(lws, i as int),
            out@.len() <= i,
        decreases raw@.len() - i,
    {
        // lowercase copy of the word
        let w = &raw[i];
        let mut lw: Vec<u8> = Vec::new();
        let mut j: usize = 0;
        while j < w.len()
            invariant
                j <= w@.len(),
                lw@.len() == j,
                forall|k: int| 0 <= k < j ==> lw@[k] == lower_byte(w@[k]),
            decreases w@.len() - j,
        {
            let b = w[j];
            if b >= 65 && b <= 90 {
                lw.push(b + 32);
            } else {
                lw.push(b);
            }
            j += 1;
        }
        proof {
            assert(lw@ =~= lower_word(raw@[i as int]@));
            assert(lw@ == lws[i as int]);
        }
        // drop the word if an equal one is already kept
        let mut dup = false;
        let mut j2: usize = 0;
        while j2 < out.len()
            invariant
                j2 <= out@.len(),
                lw@ == lws[i as int],
                i < raw@.len() == lws.len(),
                word_views(out@) == dedup_prefix(lws, i as int),
                dup == exists|k: int| 0 <= k < j2 && word_views(out@)[k] == lw@,
            decreases out@.len() - j2,
        {
            let eq = words_equal(&out[j2], &lw);
            proof {
                assert(word_views(out@)[j2 as int] == out@[j2 as int]@);
            }
            if eq {
                dup = true;
            }
            j2 += 1;
        }
        proof {
            assert(dup == dedup_prefix(lws, i as int).contains(lw@));
        }
        if !dup {
            out.push(lw);
            proof {
                assert(word_views(out@) =~= dedup_prefix(lws, i as int).push(lws[i as int]));
            }
        }
        i += 1;
    }
    proof {
        lemma_dedup_len(lws, raw@.len() as int);
        lemma_dedup_distinct(lws, raw@.len() as int);
    }
    Ok(out)
}

} // verus!
