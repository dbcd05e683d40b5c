//! The order in which byte pairs are merged, and where merging ends.
use crate::gguf_codec::{best_pair, joined_at, merged, pair_key};
use crate::text_index::first_at;
use vstd::prelude::*;

verus! {

/// Pieces `i` and `i + 1` are the pair that the list names at place `r`.
pub open spec fn is_listed_at(merges: Seq<Seq<char>>, p: Seq<Seq<char>>, i: int, r: int) -> bool {
    &&& 0 <= i < p.len() - 1
    &&& 0 <= r < merges.len()
    &&& merges[r] == p[i] + seq!['\0'] + p[i + 1]
}

/// Of all neighbouring pieces, `i` and `i + 1` are the pair that stands first in
/// the list, and the leftmost such pair.
pub open spec fn merges_next(merges: Seq<Seq<char>>, p: Seq<Seq<char>>, i: int, r: int) -> bool {
    &&& is_listed_at(merges, p, i, r)
    &&& forall|k: int, t: int| #[trigger] is_listed_at(merges, p, k, t) ==> r <= t
    &&& forall|k: int| k < i ==> !#[trigger] is_listed_at(merges, p, k, r)
}

/// No neighbouring pieces are a pair of the list.
pub open spec fn nothing_merges(merges: Seq<Seq<char>>, p: Seq<Seq<char>>) -> bool {
    forall|k: int, t: int| !#[trigger] is_listed_at(merges, p, k, t)
}

proof fn lemma_key(a: Seq<char>, b: Seq<char>)
    ensures
        pair_key(a, b) == a + seq!['\0'] + b,
{
    assert(pair_key(a, b) =~= a + seq!['\0'] + b);
}

/// What the first place of a key says of the list.
pub(crate) proof fn lemma_first(merges: Seq<Seq<char>>, key: Seq<char>)
    ensures
        match first_at(merges, key) {
            Some(r) => {
                &&& 0 <= r < merges.len()
                &&& merges[r] == key
                &&& forall|t: int| 0 <= t < r ==> merges[t] != key
            },
            None => forall|t: int| 0 <= t < merges.len() ==> merges[t] != key,
        },
    decreases merges.len(),
{
    if merges.len() > 0 {
        let init = merges.drop_last();
        lemma_first(init, key);
        assert forall|t: int| 0 <= t < init.len() implies merges[t] == init[t] by {}
    }
}

/// The chosen pair among the first `n`.
proof fn lemma_best(merges: Seq<Seq<char>>, p: Seq<Seq<char>>, n: nat)
    requires
        n < p.len(),
    ensures
        match best_pair(merges, p, n) {
            Some(i) => {
                let r = first_at(merges, pair_key(p[i], p[i + 1]));
                &&& 0 <= i < n
                &&& r is Some
                &&& is_listed_at(merges, p, i, r->0)
                &&& forall|k: int, t: int| #[trigger]
                    is_listed_at(merges, p, k, t) && k < n ==> r->0 <= t && (k < i ==> r->0 < t)
            },
            None => forall|k: int, t: int| k < n ==> !#[trigger] is_listed_at(merges, p, k, t),
        },
    decreases n,
{
    if n > 0 {
        lemma_best(merges, p, (n - 1) as nat);
        let key = pair_key(p[n - 1], p[n as int]);
        lemma_first(merges, key);
        lemma_key(p[n - 1], p[n as int]);
        let before = best_pair(merges, p, (n - 1) as nat);
        if before is Some {
            let b = before->0;
            lemma_first(merges, pair_key(p[b], p[b + 1]));
        }
    }
}

/// The pair that is merged next has the least place in the list of all neighbouring
/// pairs that are listed, and is the leftmost of those at that place.
pub proof fn the_pair_listed_first_is_chosen(merges: Seq<Seq<char>>, p: Seq<Seq<char>>)
    requires
        p.len() > 1,
    ensures
        match best_pair(merges, p, (p.len() - 1) as nat) {
            Some(i) => exists|r: int| #[trigger] merges_next(merges, p, i, r),
            None => nothing_merges(merges, p),
        },
{
    lemma_best(merges, p, (p.len() - 1) as nat);
    match best_pair(merges, p, (p.len() - 1) as nat) {
        Some(i) => {
            let r = first_at(merges, pair_key(p[i], p[i + 1]))->0;
            assert forall|k: int| k < i implies !#[trigger] is_listed_at(merges, p, k, r) by {
                if is_listed_at(merges, p, k, r) {
                    assert(r < r);
                }
            }
            assert(merges_next(merges, p, i, r));
        },
        None => {},
    }
}

/// One merge, whichever pair is next: merging starts with it and goes on with the
/// pieces in which those two are one.
pub proof fn merging_starts_with_the_pair_listed_first(
    merges: Seq<Seq<char>>,
    p: Seq<Seq<char>>,
    i: int,
    r: int,
)
    requires
        merges_next(merges, p, i, r),
    ensures
        merged(merges, p) == merged(
            merges,
            p.subrange(0, i) + seq![p[i] + p[i + 1]] + p.subrange(i + 2, p.len() as int),
        ),
{
    the_pair_listed_first_is_chosen(merges, p);
    assert(is_listed_at(merges, p, i, r));
    match best_pair(merges, p, (p.len() - 1) as nat) {
        Some(j) => {
            let t = choose|t: int| #[trigger] merges_next(merges, p, j, t);
            assert(is_listed_at(merges, p, j, t));
            assert(r == t);
            assert(i == j);
            assert(joined_at(p, i) =~= p.subrange(0, i) + seq![p[i] + p[i + 1]] + p.subrange(
                i + 2,
                p.len() as int,
            ));
        },
        None => {},
    }
}

/// Merging ends where no neighbouring pieces are listed, and pieces of which none
/// are listed stay as they are.
pub proof fn merging_ends_when_no_pair_is_listed(merges: Seq<Seq<char>>, p: Seq<Seq<char>>)
    ensures
        nothing_merges(merges, merged(merges, p)),
        nothing_merges(merges, p) ==> merged(merges, p) == p,
        merged(merges, p).len() <= p.len(),
    decreases p.len(),
{
    if p.len() > 1 {
        the_pair_listed_first_is_chosen(merges, p);
        match best_pair(merges, p, (p.len() - 1) as nat) {
            Some(i) => {
                let r = choose|r: int| #[trigger] merges_next(merges, p, i, r);
                assert(is_listed_at(merges, p, i, r));
                merging_ends_when_no_pair_is_listed(merges, joined_at(p, i));
            },
            None => {},
        }
    }
}

} // verus!
