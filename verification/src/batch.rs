//! Tokens as tables of ids, and the tokens of many texts in one table.
use crate::tok::Tok;
use vstd::prelude::*;

verus! {

/// The ids of a token as a row: variation, prefix, core, suffix.
pub open spec fn row(t: Tok) -> Seq<i32> {
    seq![t.variation as i32, t.prefix as i32, t.core as i32, t.suffix as i32]
}

/// The ids of tokens, row after row.
pub open spec fn rows(toks: Seq<Tok>) -> Seq<i32>
    decreases toks.len(),
{
    if toks.len() == 0 {
        seq![]
    } else {
        row(toks[0]) + rows(toks.skip(1))
    }
}

/// The ids of tokens, row after row. Ids from 2^31 on come out negative.
pub fn to_rows(toks: &Vec<Tok>) -> (ids: Vec<i32>)
    ensures
        ids@ == rows(toks@),
        ids@.len() == 4 * toks@.len(),
{
    let mut ids: Vec<i32> = Vec::new();
    let mut i: usize = 0;
    assert(toks@.skip(0) =~= toks@);
    assert(ids@ + rows(toks@) =~= rows(toks@));
    while i < toks.len()
        invariant
            i <= toks@.len(),
            ids@.len() == 4 * i,
            rows(toks@) == ids@ + rows(toks@.skip(i as int)),
        decreases toks@.len() - i,
    {
        let t: Tok = toks[i];
        let ghost ids0 = ids@;
        let ghost rest = toks@.skip(i + 1);
        ids.push(t.variation as i32);
        ids.push(t.prefix as i32);
        ids.push(t.core as i32);
        ids.push(t.suffix as i32);
        assert(toks@.skip(i as int).skip(1) =~= rest);
        assert(ids@ =~= ids0 + row(t));
        assert(ids0 + (row(t) + rows(rest)) =~= ids@ + rows(rest));
        i = i + 1;
    }
    assert(toks@.skip(i as int) =~= seq![]);
    assert(ids@ + rows(seq![]) =~= ids@);
    ids
}

/// The tokens in a list of lists.
pub open spec fn toks_of(results: Seq<Vec<Tok>>) -> Seq<Seq<Tok>> {
    results.map_values(|v: Vec<Tok>| v@)
}

/// How many tokens the first `n` lists hold.
pub open spec fn count_below(lists: Seq<Seq<Tok>>, n: int) -> nat
    decreases n,
{
    if n <= 0 {
        0
    } else {
        count_below(lists, n - 1) + lists[n - 1].len()
    }
}

/// The first `n` lists, one after the other.
pub open spec fn joined(lists: Seq<Seq<Tok>>, n: int) -> Seq<Tok>
    decreases n,
{
    if n <= 0 {
        seq![]
    } else {
        joined(lists, n - 1) + lists[n - 1]
    }
}

/// Fewer lists hold fewer tokens.
pub proof fn lemma_count_below(lists: Seq<Seq<Tok>>, i: int, n: int)
    requires
        i <= n,
    ensures
        count_below(lists, i) <= count_below(lists, n),
        joined(lists, n).len() == count_below(lists, n),
    decreases n,
{
    if n > 0 {
        if i < n {
            lemma_count_below(lists, i, n - 1);
        } else {
            lemma_count_below(lists, n - 1, n - 1);
        }
    }
}

/// The tokens of many texts in one list, and where the tokens of each text start in it. The last
/// offset is the end.
pub fn flatten(results: &Vec<Vec<Tok>>) -> (r: (Vec<Tok>, Vec<usize>))
    ensures
        r.0@ == joined(toks_of(results@), results@.len() as int),
        r.1@.len() == results@.len() + 1,
        forall|i: int|
            0 <= i <= results@.len() ==> #[trigger] r.1@[i] == count_below(toks_of(results@), i),
{
    let n: usize = results.len();
    let mut flat: Vec<Tok> = Vec::new();
    let mut offs: Vec<usize> = Vec::new();
    offs.push(0);
    let mut i: usize = 0;
    let ghost lists = toks_of(results@);
    while i < n
        invariant
            n == results@.len(),
            lists == toks_of(results@),
            i <= n,
            flat@ == joined(lists, i as int),
            offs@.len() == i + 1,
            forall|k: int| 0 <= k <= i ==> #[trigger] offs@[k] == count_below(lists, k),
        decreases n - i,
    {
        flat.extend_from_slice(results[i].as_slice());
        proof {
            assert(lists[i as int] == results@[i as int]@);
            assert(flat@ =~= joined(lists, i + 1));
            lemma_count_below(lists, i + 1, i + 1);
        }
        offs.push(flat.len());
        i = i + 1;
    }
    (flat, offs)
}

/// How many units the cache of each of `workers` workers holds at most.
pub fn worker_limit(limit: usize, workers: usize) -> (r: usize)
    requires
        workers > 0,
        limit < usize::MAX || workers > 1,
    ensures
        r == limit / workers + 1,
{
    assert(limit / workers <= limit) by (nonlinear_arith)
        requires
            workers > 0,
            limit >= 0,
    ;
    assert(workers > 1 ==> limit / workers <= limit / 2) by (nonlinear_arith)
        requires
            workers > 0,
            limit >= 0,
    ;
    limit / workers + 1
}

/// The worker whose cache a thread uses, by its index in the pool if it has one.
pub fn worker_of(thread: Option<usize>, workers: usize) -> (r: usize)
    requires
        workers > 0,
    ensures
        r == (match thread {
            Some(i) => i % workers,
            None => 0,
        }),
        r < workers,
{
    match thread {
        Some(i) => i % workers,
        None => 0,
    }
}

} // verus!
