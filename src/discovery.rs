use vstd::prelude::*;

use crate::keys::{ends_with, grib2_suffix, is_mrms_grib2_key, extract_timestamp_from_key, is_timestamp_shaped, timestamp_of_key, timestamp_shaped};
use crate::scheduler::{compare_text, text_cmp, text_le};

verus! {

/// The greatest timestamp at or before `target` that the first `n` keys carry.
pub open spec fn latest_at_or_before(keys: Seq<String>, target: Seq<char>, n: int) -> Option<Seq<char>>
    decreases n,
{
    if n <= 0 {
        None
    } else {
        let prev = latest_at_or_before(keys, target, n - 1);
        match timestamp_of_key(keys[n - 1]@) {
            Some(t) => if text_le(t, target) && (prev matches Some(p) ==> text_cmp(t, p) > 0) {
                Some(t)
            } else {
                prev
            },
            None => prev,
        }
    }
}

/// Among the timestamps that listed keys carry, the greatest one at or before
/// `target`; nothing for a target that is not a `YYYYMMDD-HHMMSS` timestamp.
pub fn find_latest_timestamp_at_or_before(keys: &Vec<String>, target: &str) -> (r: Option<String>)
    ensures
        !timestamp_shaped(target@) ==> r is None,
        timestamp_shaped(target@) ==> match latest_at_or_before(keys@, target@, keys@.len() as int) {
            Some(t) => r matches Some(s) && s@ == t,
            None => r is None,
        },
{
    if !is_timestamp_shaped(target) {
        return None;
    }
    let mut best: Option<String> = None;
    let mut i: usize = 0;
    while i < keys.len()
        invariant
            0 <= i <= keys@.len(),
            match latest_at_or_before(keys@, target@, i as int) {
                Some(t) => best matches Some(s) && s@ == t,
                None => best is None,
            },
        decreases keys@.len() - i,
    {
        if let Some(t) = extract_timestamp_from_key(keys[i].as_str()) {
            if compare_text(t.as_str(), target) <= 0 {
                let newer = match &best {
                    Some(b) => compare_text(t.as_str(), b.as_str()) > 0,
                    None => true,
                };
                if newer {
                    best = Some(t);
                }
            }
        }
        i = i + 1;
    }
    best
}

/// Keys that name gzipped GRIB2 objects, as a filter predicate.
pub open spec fn grib_key() -> spec_fn(String) -> bool {
    |k: String| ends_with(k@, grib2_suffix())
}

pub open spec fn texts_ascending(s: Seq<String>) -> bool {
    forall|i: int, j: int| 0 <= i < j < s.len() ==> text_le((#[trigger] s[i])@, (#[trigger] s[j])@)
}

pub open spec fn texts_descending(s: Seq<String>) -> bool {
    forall|i: int, j: int| 0 <= i < j < s.len() ==> text_le((#[trigger] s[j])@, (#[trigger] s[i])@)
}

/// Relies on `slice::sort_unstable` on `String`s: a permutation in ascending
/// order, which for `String` is the lexicographic order of the characters.
#[verifier::external_body]
fn sort_texts(v: &mut Vec<String>)
    ensures
        final(v)@.to_multiset() == old(v)@.to_multiset(),
        texts_ascending(final(v)@),
{
    v.sort_unstable();
}

proof fn lemma_filter_push_key(s: Seq<String>, x: String, p: spec_fn(String) -> bool)
    ensures
        s.push(x).filter(p) == if p(x) {
            s.filter(p).push(x)
        } else {
            s.filter(p)
        },
{
    assert(s.push(x).drop_last() =~= s);
    reveal_with_fuel(Seq::filter, 1);
}

/// The GRIB2 keys of a listing, newest (greatest) first, at most `limit` of them.
pub fn newest_grib_keys(keys: Vec<String>, limit: usize) -> (r: Vec<String>)
    ensures
        r@.len() == if limit < keys@.filter(grib_key()).len() {
            limit as int
        } else {
            keys@.filter(grib_key()).len() as int
        },
        exists|full: Seq<String>|
            #![trigger texts_descending(full)]
            full.to_multiset() == keys@.filter(grib_key()).to_multiset() && texts_descending(full) && r@
                == full.subrange(0, r@.len() as int),
{
    broadcast use vstd::seq_lib::group_to_multiset_ensures;

    let ghost orig = keys@;
    let mut keys = keys;
    let n = keys.len();
    let mut picked: Vec<String> = Vec::new();
    let mut i: usize = 0;
    while i < n
        invariant
            n == orig.len(),
            keys@.len() == n,
            0 <= i <= n,
            forall|k: int| i <= k < n ==> #[trigger] keys@[k] == orig[k],
            picked@ == orig.subrange(0, i as int).filter(grib_key()),
        decreases n - i,
    {
        let keep = is_mrms_grib2_key(keys[i].as_str());
        let mut taken = String::new();
        let ghost before = keys@;
        std::mem::swap(&mut keys[i], &mut taken);
        assert(taken == orig[i as int]);
        proof {
            assert(orig.subrange(0, i + 1) =~= orig.subrange(0, i as int).push(taken));
            lemma_filter_push_key(orig.subrange(0, i as int), taken, grib_key());
            assert forall|k: int| i < k < n implies #[trigger] keys@[k] == orig[k] by {
                assert(keys@[k] == before[k]);
            }
        }
        if keep {
            picked.push(taken);
        }
        i = i + 1;
    }
    assert(orig.subrange(0, n as int) =~= orig);
    sort_texts(&mut picked);
    let ghost sorted = picked@;
    let ghost full = sorted.reverse();
    proof {
        sorted.lemma_reverse_to_multiset();
        assert(sorted.to_multiset().len() == sorted.len());
        assert(orig.filter(grib_key()).to_multiset().len() == orig.filter(grib_key()).len());
        assert forall|a: int, b: int| 0 <= a < b < full.len() implies text_le(
            (#[trigger] full[b])@,
            (#[trigger] full[a])@,
        ) by {
            assert(full[a] == sorted[sorted.len() - 1 - a]);
            assert(full[b] == sorted[sorted.len() - 1 - b]);
        }
    }
    let mut out: Vec<String> = Vec::new();
    while out.len() < limit && picked.len() > 0
        invariant
            full == sorted.reverse(),
            out@.len() + picked@.len() == sorted.len(),
            picked@ == sorted.subrange(0, picked@.len() as int),
            out@ == full.subrange(0, out@.len() as int),
            out@.len() <= limit,
        decreases picked@.len(),
    {
        let ghost p = picked@;
        let last = picked.pop().unwrap();
        assert(last == sorted[p.len() - 1]);
        let ghost o = out@;
        out.push(last);
        assert(picked@ =~= sorted.subrange(0, picked@.len() as int));
        assert(full[o.len() as int] == sorted[sorted.len() - 1 - o.len()]);
        assert(out@ =~= full.subrange(0, out@.len() as int));
    }
    proof {
        assert(texts_descending(full));
    }
    out
}

} // verus!
