//! Exact byte-pattern search, and the marker locator built on it.
use memchr::memmem::Finder;
use vstd::prelude::*;

verus! {

/// The needle a finder was built for.
pub uninterp spec fn needle_of(f: Finder) -> Seq<u8>;

/// `n` occurs in `h` starting at `i`.
pub open spec fn occurs_at(h: Seq<u8>, n: Seq<u8>, i: int) -> bool {
    0 <= i && i + n.len() <= h.len() && h.subrange(i, i + n.len()) == n
}

/// `i` is the first occurrence of `n` in `h` at or after `from`.
pub open spec fn first_from(h: Seq<u8>, n: Seq<u8>, from: int, i: int) -> bool {
    &&& from <= i
    &&& occurs_at(h, n, i)
    &&& forall|j: int| from <= j < i ==> !occurs_at(h, n, j)
}

/// Where `n` is first found in `h` by a search restricted to positions at or
/// after `from`.
pub open spec fn find_from(h: Seq<u8>, n: Seq<u8>, from: int) -> Option<int> {
    if exists|i: int| #[trigger] first_from(h, n, from, i) {
        Some(choose|i: int| #[trigger] first_from(h, n, from, i))
    } else {
        None
    }
}

/// The first position of a suffix probe: the suffix that starts there is
/// about the last `1/k` of a haystack of length `len`.
pub open spec fn probe_start(len: int, k: int) -> int {
    (k - 1) * (len / k)
}

/// The largest denominator probed: the first probe covers the last sixth.
pub const FIRST_PROBE: usize = 6;

/// Probes the suffixes that start at `probe_start(len, k)` for `k` counting down
/// to 2, each one larger than the one before, and takes the first occurrence in
/// the first suffix that holds one; then the whole haystack.
pub open spec fn probe(h: Seq<u8>, n: Seq<u8>, k: int) -> Option<int>
    decreases k,
{
    if k < 2 {
        find_from(h, n, 0)
    } else {
        match find_from(h, n, probe_start(h.len() as int, k)) {
            Some(i) => Some(i),
            None => probe(h, n, k - 1),
        }
    }
}

/// What the marker locator returns for needle `n` in haystack `h`.
pub open spec fn locate_spec(h: Seq<u8>, n: Seq<u8>) -> Option<int> {
    probe(h, n, FIRST_PROBE as int)
}

/// The first occurrence at or after `from` is unique.
pub proof fn lemma_first_unique(h: Seq<u8>, n: Seq<u8>, from: int, i: int, j: int)
    requires
        first_from(h, n, from, i),
        first_from(h, n, from, j),
    ensures
        i == j,
{
    if i < j {
        assert(!occurs_at(h, n, i));
    } else if j < i {
        assert(!occurs_at(h, n, j));
    }
}

/// A search of the suffix `h[start..]` gives the search of `h` from `start`.
proof fn lemma_suffix_search(h: Seq<u8>, n: Seq<u8>, start: int, r: Option<usize>)
    requires
        0 <= start <= h.len(),
        match r {
            Some(i) => first_from(h.subrange(start, h.len() as int), n, 0, i as int),
            None => forall|j: int| !occurs_at(h.subrange(start, h.len() as int), n, j),
        },
    ensures
        find_from(h, n, start) == match r {
            Some(i) => Some(start + i),
            None => None::<int>,
        },
{
    let t = h.subrange(start, h.len() as int);
    assert forall|j: int| start <= j implies occurs_at(h, n, j) == occurs_at(t, n, j - start) by {
        if j + n.len() <= h.len() {
            assert(t.subrange(j - start, j - start + n.len()) =~= h.subrange(j, j + n.len()));
        }
    }
    match r {
        Some(i) => {
            assert(first_from(h, n, start, start + i));
            let c = choose|c: int| #[trigger] first_from(h, n, start, c);
            lemma_first_unique(h, n, start, c, start + i);
        },
        None => {
            assert forall|c: int| !#[trigger] first_from(h, n, start, c) by {
                if first_from(h, n, start, c) {
                    assert(!occurs_at(t, n, c - start));
                }
            }
        },
    }
}

/// A search of the whole haystack is the search from its start.
pub proof fn lemma_search_whole(h: Seq<u8>, n: Seq<u8>, r: Option<usize>)
    requires
        match r {
            Some(i) => first_from(h, n, 0, i as int),
            None => forall|j: int| !occurs_at(h, n, j),
        },
    ensures
        find_from(h, n, 0) == match r {
            Some(i) => Some(i as int),
            None => None::<int>,
        },
{
    assert(h.subrange(0, h.len() as int) =~= h);
    lemma_suffix_search(h, n, 0, r);
}

/// Marker locator: finds the needle of `finder` in `haystack`, probing suffixes
/// of decreasing start (the marker is expected near the end) before searching
/// the whole haystack.
pub fn locate(haystack: &[u8], finder: &Finder) -> (r: Option<usize>)
    ensures
        match r {
            Some(i) => locate_spec(haystack@, needle_of(*finder)) == Some(i as int),
            None => locate_spec(haystack@, needle_of(*finder)) is None,
        },
{
    let len = haystack.len();
    let ghost h = haystack@;
    let ghost n = needle_of(*finder);
    let mut k: usize = FIRST_PROBE;
    while k >= 2
        invariant
            k <= FIRST_PROBE,
            len == h.len(),
            h == haystack@,
            n == needle_of(*finder),
            locate_spec(h, n) == probe(h, n, k as int),
        decreases k,
    {
        let q = len / k;
        assert((k - 1) * q <= len) by (nonlinear_arith)
            requires
                q == len / k,
                k >= 2,
        ;
        let start = (k - 1) * q;
        let found = find_first(finder, &haystack[start..len]);
        proof {
            lemma_suffix_search(h, n, start as int, found);
        }
        match found {
            Some(i) => {
                return Some(start + i);
            },
            None => {},
        }
        k = k - 1;
    }
    let found = find_first(finder, haystack);
    proof {
        assert(h.subrange(0, h.len() as int) =~= h);
        lemma_suffix_search(h, n, 0, found);
    }
    found
}

/// The search from `from` of a needle that occurs at most at `p`.
proof fn lemma_find_from_unique(h: Seq<u8>, n: Seq<u8>, p: int, from: int)
    requires
        forall|j: int| #[trigger] occurs_at(h, n, j) ==> j == p,
    ensures
        find_from(h, n, from) == if occurs_at(h, n, p) && from <= p {
            Some(p)
        } else {
            None::<int>
        },
{
    if occurs_at(h, n, p) && from <= p {
        assert(first_from(h, n, from, p));
        let c = choose|c: int| #[trigger] first_from(h, n, from, c);
        lemma_first_unique(h, n, from, c, p);
    } else {
        assert forall|c: int| !#[trigger] first_from(h, n, from, c) by {
            if first_from(h, n, from, c) {
                assert(occurs_at(h, n, c));
            }
        }
    }
}

proof fn lemma_probe_unique(h: Seq<u8>, n: Seq<u8>, p: int, k: int)
    requires
        forall|j: int| #[trigger] occurs_at(h, n, j) ==> j == p,
    ensures
        probe(h, n, k) == if occurs_at(h, n, p) {
            Some(p)
        } else {
            None::<int>
        },
    decreases k,
{
    if k < 2 {
        lemma_find_from_unique(h, n, p, 0);
    } else {
        lemma_find_from_unique(h, n, p, probe_start(h.len() as int, k));
        lemma_probe_unique(h, n, p, k - 1);
    }
}

/// A needle that occurs exactly once is found where it occurs, whichever probe
/// first covers it; a needle that does not occur is not found.
pub proof fn lemma_locate_unique(h: Seq<u8>, n: Seq<u8>, p: int)
    requires
        forall|j: int| #[trigger] occurs_at(h, n, j) ==> j == p,
    ensures
        occurs_at(h, n, p) ==> locate_spec(h, n) == Some(p),
        !occurs_at(h, n, p) ==> locate_spec(h, n) is None,
{
    lemma_probe_unique(h, n, p, FIRST_PROBE as int);
}

proof fn lemma_probe_occurs(h: Seq<u8>, n: Seq<u8>, k: int)
    ensures
        probe(h, n, k) matches Some(i) ==> occurs_at(h, n, i),
    decreases k,
{
    let st = if k < 2 {
        0
    } else {
        probe_start(h.len() as int, k)
    };
    if exists|i: int| #[trigger] first_from(h, n, st, i) {
        let c = choose|i: int| #[trigger] first_from(h, n, st, i);
        assert(occurs_at(h, n, c));
    }
    if k >= 2 {
        lemma_probe_occurs(h, n, k - 1);
    }
}

/// What the locator returns is an occurrence of the needle.
pub proof fn lemma_locate_occurs(h: Seq<u8>, n: Seq<u8>)
    ensures
        locate_spec(h, n) matches Some(i) ==> occurs_at(h, n, i),
{
    lemma_probe_occurs(h, n, FIRST_PROBE as int);
}

/// Relies on memchr::memmem::Finder::new: the finder searches for `needle`.
#[verifier::external_body]
pub(crate) fn new_finder(needle: &[u8]) -> (r: Finder)
    ensures
        needle_of(r) == needle@,
{
    Finder::new(needle)
}

/// Relies on memchr::memmem::Finder::needle: the needle given at construction,
/// of which the length is taken.
#[verifier::external_body]
pub(crate) fn needle_len(f: &Finder) -> (r: usize)
    ensures
        r == needle_of(*f).len(),
{
    f.needle().len()
}

/// Relies on memchr::memmem::Finder::find: the index of the first occurrence of
/// the needle in the haystack, or `None` where it does not occur.
#[verifier::external_body]
pub(crate) fn find_first(f: &Finder, haystack: &[u8]) -> (r: Option<usize>)
    ensures
        match r {
            Some(i) => first_from(haystack@, needle_of(*f), 0, i as int),
            None => forall|j: int| !occurs_at(haystack@, needle_of(*f), j),
        },
{
    f.find(haystack)
}

#[verifier::external_type_specification]
#[verifier::external_body]
pub struct ExFinder<'n>(Finder<'n>);

} // verus!
