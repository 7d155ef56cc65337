//! Facts about sequences that the ledger's proofs share.

use crate::basic_types::H256;
use vstd::prelude::*;

verus! {

/// Filtering the first `i + 1` entries keeps what filtering the first `i`
/// keeps, and the next entry if it passes.
pub proof fn lemma_filter_step<A>(s: Seq<A>, pred: spec_fn(A) -> bool, i: int)
    requires
        0 <= i < s.len(),
    ensures
        s.take(i + 1).filter(pred) == if pred(s[i]) {
            s.take(i).filter(pred).push(s[i])
        } else {
            s.take(i).filter(pred)
        },
{
    reveal(Seq::filter);
    assert(s.take(i + 1).drop_last() =~= s.take(i));
}

/// Filtering what a filter kept keeps all of it.
pub proof fn lemma_filter_idempotent<A>(s: Seq<A>, pred: spec_fn(A) -> bool)
    ensures
        s.filter(pred).filter(pred) == s.filter(pred),
    decreases s.len(),
{
    reveal(Seq::filter);
    if s.len() > 0 {
        let sub = s.drop_last().filter(pred);
        lemma_filter_idempotent(s.drop_last(), pred);
        if pred(s.last()) {
            assert(sub.push(s.last()).drop_last() =~= sub);
        }
    }
}

/// Filtering keeps a sequence whose entries all pass.
pub proof fn lemma_filter_keeps_all<A>(s: Seq<A>, pred: spec_fn(A) -> bool)
    requires
        forall|i: int| 0 <= i < s.len() ==> pred(#[trigger] s[i]),
    ensures
        s.filter(pred) == s,
    decreases s.len(),
{
    reveal(Seq::filter);
    if s.len() > 0 {
        let front = s.drop_last();
        assert forall|i: int| 0 <= i < front.len() implies pred(#[trigger] front[i]) by {
            assert(front[i] == s[i]);
        }
        lemma_filter_keeps_all(front, pred);
        assert(front.push(s.last()) =~= s);
    }
}

/// Filtering leaves nothing of a sequence whose entries all fail.
pub proof fn lemma_filter_drops_all<A>(s: Seq<A>, pred: spec_fn(A) -> bool)
    requires
        forall|i: int| 0 <= i < s.len() ==> !pred(#[trigger] s[i]),
    ensures
        s.filter(pred) == Seq::<A>::empty(),
    decreases s.len(),
{
    reveal(Seq::filter);
    if s.len() > 0 {
        let front = s.drop_last();
        assert forall|i: int| 0 <= i < front.len() implies !pred(#[trigger] front[i]) by {
            assert(front[i] == s[i]);
        }
        lemma_filter_drops_all(front, pred);
    }
}

/// Whether `key` is one of the first `n` of `keys`.
pub open spec fn occurs_within(keys: Seq<H256>, key: H256, n: int) -> bool {
    exists|j: int| 0 <= j < n && j < keys.len() && keys[j] == key
}

/// A key is one of the first `n + 1` where it is one of the first `n` or the
/// next.
pub proof fn lemma_occurs_step(keys: Seq<H256>, key: H256, n: int)
    requires
        0 <= n < keys.len(),
    ensures
        occurs_within(keys, key, n + 1) <==> (occurs_within(keys, key, n) || keys[n] == key),
{
    if occurs_within(keys, key, n + 1) {
        let j = choose|j: int| 0 <= j < n + 1 && j < keys.len() && keys[j] == key;
        if j < n {
            assert(occurs_within(keys, key, n));
        }
    }
    if occurs_within(keys, key, n) {
        let j = choose|j: int| 0 <= j < n && j < keys.len() && keys[j] == key;
        assert(0 <= j < n + 1 && keys[j] == key);
    }
}

/// A key is one of all of `keys` where `keys` contains it.
pub proof fn lemma_occurs_all(keys: Seq<H256>, key: H256)
    ensures
        occurs_within(keys, key, keys.len() as int) <==> keys.contains(key),
{
    if keys.contains(key) {
        let j = choose|j: int| 0 <= j < keys.len() && keys[j] == key;
        assert(0 <= j < keys.len() && j < keys.len() && keys[j] == key);
    }
}

/// Appending a key to `keys` adds it to what `keys` contains.
pub proof fn lemma_contains_push(keys: Seq<H256>, added: H256, key: H256)
    ensures
        keys.push(added).contains(key) <==> (keys.contains(key) || key == added),
{
    let after = keys.push(added);
    if after.contains(key) {
        let j = choose|j: int| 0 <= j < after.len() && after[j] == key;
        if j < keys.len() {
            assert(keys[j] == key);
        }
    }
    if keys.contains(key) {
        let j = choose|j: int| 0 <= j < keys.len() && keys[j] == key;
        assert(after[j] == key);
    }
    if key == added {
        assert(after[keys.len() as int] == key);
    }
}

/// Whether the numbers `xs` ascend, each once.
pub open spec fn numbers_ascend(xs: Seq<nat>) -> bool {
    forall|a: int, b: int| 0 <= a < b < xs.len() ==> xs[a] < xs[b]
}

/// Two ascending lists of the same numbers are the same list.
pub proof fn lemma_ascending_lists_agree(xs: Seq<nat>, ys: Seq<nat>)
    requires
        numbers_ascend(xs),
        numbers_ascend(ys),
        forall|v: nat| xs.contains(v) <==> ys.contains(v),
    ensures
        xs == ys,
    decreases xs.len(),
{
    if xs.len() == 0 {
        if ys.len() > 0 {
            assert(ys.contains(ys[0]));
            assert(xs.contains(ys[0]));
        }
        assert(xs =~= ys);
    } else {
        let top = xs.last();
        assert(xs.contains(top));
        assert(ys.contains(top));
        let at = choose|at: int| 0 <= at < ys.len() && ys[at] == top;
        assert(ys.contains(ys.last()));
        assert(xs.contains(ys.last()));
        let back = choose|back: int| 0 <= back < xs.len() && xs[back] == ys.last();
        assert(ys.last() == top) by {
            if back < xs.len() - 1 {
                assert(xs[back] < xs[xs.len() - 1]);
            }
            if at < ys.len() - 1 {
                assert(ys[at] < ys[ys.len() - 1]);
            }
        }
        let xf = xs.drop_last();
        let yf = ys.drop_last();
        assert forall|v: nat| xf.contains(v) <==> yf.contains(v) by {
            if xf.contains(v) {
                let i = choose|i: int| 0 <= i < xf.len() && xf[i] == v;
                assert(xs[i] == v && xs[i] < xs[xs.len() - 1]);
                assert(xs.contains(v));
                let j = choose|j: int| 0 <= j < ys.len() && ys[j] == v;
                assert(j < ys.len() - 1);
                assert(yf[j] == v);
            }
            if yf.contains(v) {
                let j = choose|j: int| 0 <= j < yf.len() && yf[j] == v;
                assert(ys[j] == v && ys[j] < ys[ys.len() - 1]);
                assert(ys.contains(v));
                let i = choose|i: int| 0 <= i < xs.len() && xs[i] == v;
                assert(i < xs.len() - 1);
                assert(xf[i] == v);
            }
        }
        assert(numbers_ascend(xf)) by {
            assert forall|a: int, b: int| 0 <= a < b < xf.len() implies xf[a] < xf[b] by {
                assert(xs[a] < xs[b]);
            }
        }
        assert(numbers_ascend(yf)) by {
            assert forall|a: int, b: int| 0 <= a < b < yf.len() implies yf[a] < yf[b] by {
                assert(ys[a] < ys[b]);
            }
        }
        lemma_ascending_lists_agree(xf, yf);
        assert(xs =~= xf.push(top));
        assert(ys =~= yf.push(top));
    }
}

} // verus!
