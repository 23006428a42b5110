use vstd::prelude::*;
use vstd::string::{StrSliceExecFns, StringExecFns};

use crate::scheduler::compare_text;
use crate::traffic::{trim_text, trimmed_of};

verus! {

/// Service settings; durations are in seconds.
pub struct Config {
    pub listen_addr: String,
    pub storage_dir: String,
    pub retention_bytes: u64,
    pub request_timeout_secs: u64,
    pub bootstrap_interval_secs: u64,
    pub sqs_poll_delay_secs: u64,
    pub pending_retry_secs: u64,
    pub aws_region: String,
    pub sqs_queue_url: Option<String>,
    pub tile_size: u16,
    pub adsbx_primary_base_url: String,
    pub adsbx_fallback_base_urls: Vec<String>,
}

pub open spec fn scans_suffix() -> Seq<char> {
    seq!['s', 'c', 'a', 'n', 's']
}

/// The directory of snapshot files: `scans` under the storage directory.
pub open spec fn scans_dir_of(dir: Seq<char>) -> Seq<char> {
    if dir.len() == 0 {
        scans_suffix()
    } else if dir[dir.len() - 1] == '/' {
        dir + scans_suffix()
    } else {
        dir + seq!['/'] + scans_suffix()
    }
}

/// The base URLs worth trying among the first `n` candidates: non-empty, each
/// once, in order.
pub open spec fn distinct_urls(c: Seq<Seq<char>>, n: int) -> Seq<Seq<char>>
    decreases n,
{
    if n <= 0 {
        Seq::empty()
    } else {
        let prev = distinct_urls(c, n - 1);
        let x = c[n - 1];
        if x.len() == 0 || prev.contains(x) {
            prev
        } else {
            prev.push(x)
        }
    }
}

/// The primary base URL followed by the fallbacks.
pub open spec fn url_candidates(cfg: Config) -> Seq<Seq<char>> {
    seq![cfg.adsbx_primary_base_url@] + cfg.adsbx_fallback_base_urls@.map_values(|s: String| s@)
}

impl Config {
    pub fn scans_dir(&self) -> (r: String)
        ensures
            r@ == scans_dir_of(self.storage_dir@),
    {
        proof {
            reveal_strlit("scans");
            reveal_strlit("/scans");
        }
        let dir = self.storage_dir.as_str();
        let n = dir.unicode_len();
        if n == 0 {
            return String::from_str("scans");
        }
        let mut out = String::from_str(dir);
        if dir.get_char(n - 1) == '/' {
            out.append("scans");
        } else {
            out.append("/scans");
        }
        assert(out@ =~= scans_dir_of(self.storage_dir@));
        out
    }

    /// The traffic sources to try in order: the primary base URL, then the
    /// fallbacks, without empty or repeated entries.
    pub fn traffic_base_urls(&self) -> (r: Vec<String>)
        ensures
            r@.map_values(|s: String| s@) == distinct_urls(url_candidates(*self), url_candidates(*self).len() as int),
    {
        let ghost c = url_candidates(*self);
        let mut out: Vec<String> = Vec::new();
        push_if_new(&mut out, &self.adsbx_primary_base_url);
        proof {
            assert(c[0] == self.adsbx_primary_base_url@);
            assert(distinct_urls(c, 0) =~= Seq::<Seq<char>>::empty());
            assert(Seq::<String>::empty().map_values(|s: String| s@) =~= Seq::<Seq<char>>::empty());
        }
        let fallbacks = &self.adsbx_fallback_base_urls;
        let mut i: usize = 0;
        while i < fallbacks.len()
            invariant
                c == url_candidates(*self),
                *fallbacks == self.adsbx_fallback_base_urls,
                c.len() == fallbacks@.len() + 1,
                0 <= i <= fallbacks@.len(),
                out@.map_values(|s: String| s@) == distinct_urls(c, i + 1),
            decreases fallbacks@.len() - i,
        {
            assert(fallbacks@[i as int]@ == c[i + 1]);
            push_if_new(&mut out, &fallbacks[i]);
            i = i + 1;
        }
        out
    }
}

fn push_if_new(out: &mut Vec<String>, candidate: &String)
    ensures
        final(out)@.map_values(|s: String| s@) == if candidate@.len() == 0 || old(out)@.map_values(
            |s: String| s@,
        ).contains(candidate@) {
            old(out)@.map_values(|s: String| s@)
        } else {
            old(out)@.map_values(|s: String| s@).push(candidate@)
        },
{
    let ghost prev = out@.map_values(|s: String| s@);
    let mut seen = false;
    let mut k: usize = 0;
    while k < out.len()
        invariant
            0 <= k <= out@.len(),
            out@ == old(out)@,
            prev == out@.map_values(|s: String| s@),
            seen == exists|j: int| 0 <= j < k && prev[j] == candidate@,
        decreases out@.len() - k,
    {
        if compare_text(out[k].as_str(), candidate.as_str()) == 0 {
            proof {
                crate::scheduler::lemma_text_cmp_zero_eq(out@[k as int]@, candidate@);
                assert(prev[k as int] == candidate@);
            }
            seen = true;
        } else {
            proof {
                crate::scheduler::lemma_text_cmp_eq_zero(out@[k as int]@, candidate@);
                assert(prev[k as int] != candidate@);
            }
        }
        k = k + 1;
    }
    proof {
        if seen {
            let j = choose|j: int| 0 <= j < k && prev[j] == candidate@;
            assert(prev.contains(candidate@));
        } else {
            assert(!prev.contains(candidate@));
        }
    }
    if candidate.as_str().unicode_len() != 0 && !seen {
        out.push(candidate.clone());
        assert(out@.map_values(|s: String| s@) =~= prev.push(candidate@));
    }
}

/// A base URL without surrounding whitespace and trailing slashes.
pub open spec fn base_url_of(value: Seq<char>) -> Seq<char> {
    strip_trailing_slashes(trimmed_of(value))
}

pub open spec fn strip_trailing_slashes(s: Seq<char>) -> Seq<char>
    decreases s.len(),
{
    if s.len() > 0 && s[s.len() - 1] == '/' {
        strip_trailing_slashes(s.drop_last())
    } else {
        s
    }
}

/// Trims a base URL and drops its trailing slashes.
pub fn trim_base_url(value: &str) -> (r: String)
    ensures
        r@ == base_url_of(value@),
{
    let t = trim_text(value);
    let s = t.as_str();
    let mut n = s.unicode_len();
    proof {
        assert(s@.subrange(0, n as int) =~= s@);
    }
    while n > 0 && s.get_char(n - 1) == '/'
        invariant
            0 <= n <= s@.len(),
            strip_trailing_slashes(s@.subrange(0, n as int)) == strip_trailing_slashes(s@),
        decreases n,
    {
        proof {
            assert(s@.subrange(0, n as int).drop_last() =~= s@.subrange(0, n - 1));
        }
        n = n - 1;
    }
    proof {
        assert(s@.subrange(0, s@.len() as int) =~= s@);
    }
    String::from_str(s.substring_char(0, n))
}

} // verus!
