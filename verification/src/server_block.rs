//! The blocked-server pattern matcher.
//!
//! Given an address and a set of published SHA-1 hashes, it reconstructs the
//! candidate patterns the address could fall under — the address itself, then
//! progressively wider wildcards — hashes each, and returns the first whose
//! hash is in the set, most specific first.

use crate::hashing::{pattern_hash, pattern_hash_text};
use crate::text::{is_u8_str, join_dot, join_dots, parses_as_u8, split_dot, split_dots};
use vstd::prelude::*;
use vstd::string::StringExecFns;

verus! {

/// The published blocked-server list: SHA-1 hashes of the blocked patterns,
/// as lowercase hex strings.
#[derive(Debug, Clone)]
pub struct BlockedServers {
    /// Hashes of all blocked server patterns.
    pub hashes: Vec<String>,
}

impl View for BlockedServers {
    type V = Seq<Seq<char>>;

    open spec fn view(&self) -> Seq<Seq<char>> {
        self.hashes.deep_view()
    }
}

/// The hash of `p` is one of the published `hashes`.
pub open spec fn pattern_blocked(hashes: Seq<Seq<char>>, p: Seq<char>) -> bool {
    hashes.contains(pattern_hash(p))
}

/// `parts` has the naive IPv4 shape: exactly four segments, each parsing as
/// an unsigned 8-bit decimal number.
pub open spec fn is_ipv4_parts(parts: Seq<Seq<char>>) -> bool {
    parts.len() == 4 && (forall|i: int| 0 <= i < parts.len() ==> is_u8_str(parts[i]))
}

/// The IPv4 wildcard candidates for `parts`, most specific first: the first
/// three segments then `.*`, the first two, then the first one.
pub open spec fn ipv4_candidates(parts: Seq<Seq<char>>) -> Seq<Seq<char>> {
    if parts.len() == 0 {
        Seq::empty()
    } else {
        Seq::new(
            (parts.len() - 1) as nat,
            |k: int| join_dot(parts.take(parts.len() - 1 - k)) + seq!['.', '*'],
        )
    }
}

/// The hostname wildcard candidates for `parts`, most specific first: `*.`
/// then all but the first segment, then all but the first two, and so on.
pub open spec fn host_candidates(parts: Seq<Seq<char>>) -> Seq<Seq<char>> {
    if parts.len() == 0 {
        Seq::empty()
    } else {
        Seq::new(
            (parts.len() - 1) as nat,
            |k: int| seq!['*', '.'] + join_dot(parts.skip(k + 1)),
        )
    }
}

/// The wildcard candidates tried for `address`, most specific first.
pub open spec fn candidates_of(address: Seq<char>) -> Seq<Seq<char>> {
    let parts = split_dot(address);
    if is_ipv4_parts(parts) {
        ipv4_candidates(parts)
    } else {
        host_candidates(parts)
    }
}

/// The first of `cands` whose hash is in `hashes`, if any.
pub open spec fn first_match(hashes: Seq<Seq<char>>, cands: Seq<Seq<char>>) -> Option<Seq<char>>
    decreases cands.len(),
{
    if cands.len() == 0 {
        None
    } else if pattern_blocked(hashes, cands[0]) {
        Some(cands[0])
    } else {
        first_match(hashes, cands.drop_first())
    }
}

/// The pattern that blocks `address` under `hashes`: the address itself when
/// its own hash is listed, else the most specific listed wildcard candidate,
/// else none.
pub open spec fn blocked_pattern_spec(hashes: Seq<Seq<char>>, address: Seq<char>) -> Option<
    Seq<char>,
> {
    if pattern_blocked(hashes, address) {
        Some(address)
    } else {
        first_match(hashes, candidates_of(address))
    }
}

/// `address` is blocked under `hashes`.
pub open spec fn is_blocked_spec(hashes: Seq<Seq<char>>, address: Seq<char>) -> bool {
    blocked_pattern_spec(hashes, address) is Some
}

/// If the first `k` candidates miss and candidate `k` hits, candidate `k` is
/// the first match.
proof fn lemma_first_match_hit(hashes: Seq<Seq<char>>, cands: Seq<Seq<char>>, k: int)
    requires
        0 <= k < cands.len(),
        pattern_blocked(hashes, cands[k]),
        forall|j: int| 0 <= j < k ==> !pattern_blocked(hashes, cands[j]),
    ensures
        first_match(hashes, cands) == Some(cands[k]),
    decreases k,
{
    if k > 0 {
        lemma_first_match_hit(hashes, cands.drop_first(), k - 1);
    }
}

/// If every candidate misses, there is no first match.
proof fn lemma_first_match_none(hashes: Seq<Seq<char>>, cands: Seq<Seq<char>>)
    requires
        forall|j: int| 0 <= j < cands.len() ==> !pattern_blocked(hashes, cands[j]),
    ensures
        first_match(hashes, cands) is None,
    decreases cands.len(),
{
    if cands.len() > 0 {
        lemma_first_match_none(hashes, cands.drop_first());
    }
}

/// Tests whether an address has the shape of an IPv4 literal, naively, to
/// match how Mojang's own list classifies addresses: exactly four segments,
/// each parsing as an unsigned 8-bit decimal number.
pub fn is_ipv4(ip: &[&str]) -> (r: bool)
    ensures
        r == is_ipv4_parts(ip.deep_view()),
{
    if ip.len() != 4 {
        return false;
    }
    let mut i: usize = 0;
    while i < ip.len()
        invariant
            i <= ip@.len(),
            ip@.len() == 4,
            forall|k: int| 0 <= k < i ==> is_u8_str(#[trigger] ip.deep_view()[k]),
        decreases ip@.len() - i,
    {
        let ok = parses_as_u8(ip[i]);
        proof {
            assert(ip.deep_view()[i as int] == ip@[i as int]@);
        }
        if !ok {
            return false;
        }
        i = i + 1;
    }
    true
}

impl BlockedServers {
    /// A matcher over the given list of pattern hashes, stored unchanged.
    pub fn new(hashes: Vec<String>) -> (r: BlockedServers)
        ensures
            r.hashes == hashes,
            r@ == hashes.deep_view(),
    {
        BlockedServers { hashes }
    }

    /// Whether the hash of `pattern` is one of the stored hashes.
    fn is_pattern_blocked(&self, pattern: &str) -> (r: bool)
        ensures
            r == pattern_blocked(self@, pattern@),
    {
        let hash = pattern_hash_text(pattern);
        let mut i: usize = 0;
        while i < self.hashes.len()
            invariant
                i <= self.hashes@.len(),
                hash@ == pattern_hash(pattern@),
                forall|k: int| 0 <= k < i ==> #[trigger] self.hashes@[k]@ != pattern_hash(
                    pattern@,
                ),
            decreases self.hashes@.len() - i,
        {
            let eq = self.hashes[i] == hash;
            proof {
                assert(self@[i as int] == self.hashes@[i as int]@);
            }
            if eq {
                return true;
            }
            i = i + 1;
        }
        proof {
            assert forall|k: int| 0 <= k < self@.len() implies #[trigger] self@[k] != pattern_hash(
                pattern@,
            ) by {
                assert(self@[k] == self.hashes@[k]@);
            }
        }
        false
    }

    /// Check whether `address` is in the blocklist, and if it is, return the
    /// matching pattern: the address itself on an exact match, else the most
    /// specific wildcard pattern whose hash is listed.
    pub fn find_blocked_pattern(&self, address: &str) -> (r: Option<String>)
        ensures
            r.deep_view() == blocked_pattern_spec(self@, address@),
    {
        let parts = split_dots(address);
        let ghost pv = parts.deep_view();
        if self.is_pattern_blocked(address) {
            return Some(address.to_owned());
        }
        let ghost cands = candidates_of(address@);
        let n = parts.len();
        let ps = parts.as_slice();
        proof {
            assert(ps.deep_view() =~= pv);
        }
        if is_ipv4(ps) {
            proof {
                assert(cands == ipv4_candidates(pv));
            }
            let mut i: usize = n - 1;
            while i >= 1
                invariant
                    1 <= n == pv.len() <= usize::MAX,
                    i <= n - 1,
                    pv == parts.deep_view(),
                    parts@.len() == n,
                    cands == ipv4_candidates(pv),
                    cands == candidates_of(address@),
                    cands.len() == n - 1,
                    pattern_blocked(self@, address@) == false,
                    forall|j: int| 0 <= j < n - 1 - i ==> !pattern_blocked(
                        self@,
                        #[trigger] cands[j],
                    ),
                decreases i,
            {
                let cand = join_dots(&parts, 0, i).concat(".*");
                proof {
                    reveal_strlit(".*");
                    assert(".*"@ =~= seq!['.', '*']);
                    assert(pv.subrange(0, i as int) =~= pv.take(i as int));
                    assert(cand@ == cands[n - 1 - i]);
                }
                if self.is_pattern_blocked(cand.as_str()) {
                    proof {
                        lemma_first_match_hit(self@, cands, n - 1 - i);
                    }
                    return Some(cand);
                }
                i = i - 1;
            }
            proof {
                lemma_first_match_none(self@, cands);
            }
            None
        } else {
            proof {
                assert(cands == host_candidates(pv));
            }
            let mut i: usize = 1;
            while i < n
                invariant
                    1 <= i <= n == pv.len() <= usize::MAX,
                    pv == parts.deep_view(),
                    parts@.len() == n,
                    cands == host_candidates(pv),
                    cands == candidates_of(address@),
                    cands.len() == n - 1,
                    pattern_blocked(self@, address@) == false,
                    forall|j: int| 0 <= j < i - 1 ==> !pattern_blocked(
                        self@,
                        #[trigger] cands[j],
                    ),
                decreases n - i,
            {
                let tail = join_dots(&parts, i, n);
                let cand = String::from_str("*.").concat(tail.as_str());
                proof {
                    reveal_strlit("*.");
                    assert("*."@ =~= seq!['*', '.']);
                    assert(pv.subrange(i as int, n as int) =~= pv.skip(i as int));
                    assert(cand@ == cands[i - 1]);
                }
                if self.is_pattern_blocked(cand.as_str()) {
                    proof {
                        lemma_first_match_hit(self@, cands, i - 1);
                    }
                    return Some(cand);
                }
                i = i + 1;
            }
            proof {
                lemma_first_match_none(self@, cands);
            }
            None
        }
    }

    /// Check whether `address` is in the blocklist: true exactly when
    /// `find_blocked_pattern` finds a pattern for it.
    pub fn is_blocked(&self, address: &str) -> (r: bool)
        ensures
            r == is_blocked_spec(self@, address@),
    {
        self.find_blocked_pattern(address).is_some()
    }
}

/// An address is blocked exactly when a pattern is found for it: the boolean
/// query is a projection of the pattern query.
pub proof fn lemma_is_blocked_agrees(hashes: Seq<Seq<char>>, address: Seq<char>)
    ensures
        is_blocked_spec(hashes, address) == (blocked_pattern_spec(hashes, address) is Some),
{
}

/// An exact match always takes priority: when the address's own hash is
/// listed, the found pattern is the address itself, whatever wildcards also
/// match.
pub proof fn lemma_exact_match_priority(hashes: Seq<Seq<char>>, address: Seq<char>)
    requires
        pattern_blocked(hashes, address),
    ensures
        blocked_pattern_spec(hashes, address) == Some(address),
{
}

/// With an empty hash list, no address is ever blocked.
pub proof fn lemma_empty_never_blocks(address: Seq<char>)
    ensures
        !is_blocked_spec(Seq::empty(), address),
{
    lemma_first_match_none(Seq::empty(), candidates_of(address));
}

} // verus!

