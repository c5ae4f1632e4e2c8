//! Ordering of candidate words by how many different letters they hold.
use vstd::prelude::*;

verus! {

/// The number of different characters in `w`.
pub open spec fn variety(w: Seq<char>) -> nat {
    w.to_set().len()
}

/// The ranking key of a word: its number of different characters.
pub open spec fn key(w: String) -> nat {
    variety(w@)
}

/// Places `x` into `t` after every element whose key is at least that of `x`
/// and before the run of smaller keys that ends `t`.
pub open spec fn insert_ranked(t: Seq<String>, x: String) -> Seq<String>
    decreases t.len(),
{
    if t.len() == 0 || key(t.last()) >= key(x) {
        t.push(x)
    } else {
        insert_ranked(t.drop_last(), x).push(t.last())
    }
}

/// `s` sorted by key, largest first, equal keys kept in their order in `s`.
pub open spec fn ranked(s: Seq<String>) -> Seq<String>
    decreases s.len(),
{
    if s.len() == 0 {
        s
    } else {
        insert_ranked(ranked(s.drop_last()), s.last())
    }
}

/// Keys never increase along `t`.
pub open spec fn ranked_order(t: Seq<String>) -> bool {
    forall|i: int, j: int| 0 <= i < j < t.len() ==> key(#[trigger] t[i]) >= key(#[trigger] t[j])
}

/// Counts the different characters of `w`.
pub fn distinct_letters(w: &str) -> (r: usize)
    ensures
        r as nat == variety(w@),
{
    let n = w.unicode_len();
    let mut seen: Vec<char> = Vec::new();
    let mut i: usize = 0;
    while i < n
        invariant
            n == w@.len(),
            i <= n,
            seen@.no_duplicates(),
            seen@.to_set() == w@.subrange(0, i as int).to_set(),
            seen@.len() <= i,
        decreases n - i,
    {
        let c = w.get_char(i);
        let mut j: usize = 0;
        let mut found = false;
        while j < seen.len()
            invariant
                j <= seen@.len(),
                found == (exists|k: int| 0 <= k < j && seen@[k] == c),
            decreases seen@.len() - j,
        {
            if seen[j] == c {
                found = true;
            }
            j += 1;
        }
        proof {
            assert(w@.subrange(0, i + 1) =~= w@.subrange(0, i as int).push(c));
            lemma_seq_to_set_push(w@.subrange(0, i as int), c);
            lemma_seq_to_set_push(seen@, c);
        }
        if !found {
            seen.push(c);
        } else {
            proof {
                assert(seen@.contains(c));
                assert(seen@.to_set().insert(c) =~= seen@.to_set());
            }
        }
        i += 1;
    }
    proof {
        assert(w@.subrange(0, n as int) =~= w@);
        seen@.unique_seq_to_set();
    }
    seen.len()
}

proof fn lemma_seq_to_set_push(s: Seq<char>, c: char)
    ensures
        s.push(c).to_set() == s.to_set().insert(c),
{
    assert(s.push(c).to_set() =~= s.to_set().insert(c)) by {
        assert forall|x: char| s.push(c).to_set().contains(x) <==> s.to_set().insert(c).contains(x) by {
            if s.push(c).contains(x) && x != c {
                let k = choose|k: int| 0 <= k < s.push(c).len() && s.push(c)[k] == x;
                assert(s[k] == x);
            }
            if s.contains(x) {
                let k = choose|k: int| 0 <= k < s.len() && s[k] == x;
                assert(s.push(c)[k] == x);
            }
            if x == c {
                assert(s.push(c)[s.len() as int] == x);
            }
        }
    }
}

/// `insert_ranked` puts `x` at the first place `p` that follows every key at
/// least as large as its own.
proof fn lemma_insert_ranked_at(t: Seq<String>, x: String, p: int)
    requires
        0 <= p <= t.len(),
        p == 0 || key(t[p - 1]) >= key(x),
        forall|j: int| p <= j < t.len() ==> key(#[trigger] t[j]) < key(x),
    ensures
        insert_ranked(t, x) == t.insert(p, x),
    decreases t.len(),
{
    if p == t.len() {
        assert(t.push(x) =~= t.insert(p, x));
    } else {
        let u = t.drop_last();
        assert(key(t.last()) < key(x));
        lemma_insert_ranked_at(u, x, p);
        assert(u.insert(p, x).push(t.last()) =~= t.insert(p, x));
    }
}

/// Returns `words` ordered by their number of different letters, largest
/// first; words with equal counts keep their relative order. `words` is left
/// as it is.
pub fn rank(words: &Vec<String>) -> (r: Vec<String>)
    ensures
        r@ == ranked(words@),
        r@.to_multiset() == words@.to_multiset(),
        ranked_order(r@),
{
    let mut r: Vec<String> = Vec::new();
    let mut keys: Vec<usize> = Vec::new();
    let mut i: usize = 0;
    while i < words.len()
        invariant
            i <= words@.len(),
            keys@.len() == r@.len(),
            forall|j: int| 0 <= j < r@.len() ==> keys@[j] as nat == key(#[trigger] r@[j]),
            r@ == ranked(words@.subrange(0, i as int)),
        decreases words@.len() - i,
    {
        let x = words[i].clone();
        let k = distinct_letters(x.as_str());
        let mut p: usize = r.len();
        while p > 0 && keys[p - 1] < k
            invariant
                p <= r@.len(),
                keys@.len() == r@.len(),
                forall|j: int| 0 <= j < r@.len() ==> keys@[j] as nat == key(#[trigger] r@[j]),
                forall|j: int| p <= j < r@.len() ==> key(#[trigger] r@[j]) < k,
            decreases p,
        {
            p -= 1;
        }
        proof {
            let prefix = words@.subrange(0, i as int);
            assert(words@.subrange(0, i + 1).drop_last() =~= prefix);
            assert(words@.subrange(0, i + 1).last() == x);
            lemma_insert_ranked_at(r@, x, p as int);
        }
        r.insert(p, x);
        keys.insert(p, k);
        i += 1;
    }
    proof {
        assert(words@.subrange(0, words@.len() as int) =~= words@);
        lemma_ranked_permutes(words@);
        lemma_ranked_in_order(words@);
    }
    r
}

/// Orders `possible` in place as `rank` does.
pub fn sort_possible_by_entropy(possible: &mut Vec<String>)
    ensures
        final(possible)@ == ranked(old(possible)@),
{
    let r = rank(possible);
    *possible = r;
}

proof fn lemma_insert_ranked_permutes(t: Seq<String>, x: String)
    ensures
        insert_ranked(t, x).to_multiset() == t.to_multiset().insert(x),
    decreases t.len(),
{
    broadcast use vstd::seq_lib::to_multiset_build;

    if t.len() == 0 || key(t.last()) >= key(x) {
    } else {
        let u = t.drop_last();
        lemma_insert_ranked_permutes(u, x);
        assert(u.push(t.last()) =~= t);
        assert(t.to_multiset() == u.to_multiset().insert(t.last()));
        assert(insert_ranked(t, x).to_multiset() =~= t.to_multiset().insert(x));
    }
}

/// Ranking only reorders: the result holds each word as many times as the
/// input does.
pub proof fn lemma_ranked_permutes(s: Seq<String>)
    ensures
        ranked(s).to_multiset() == s.to_multiset(),
    decreases s.len(),
{
    broadcast use vstd::seq_lib::to_multiset_build;

    if s.len() > 0 {
        let u = s.drop_last();
        lemma_ranked_permutes(u);
        lemma_insert_ranked_permutes(ranked(u), s.last());
        assert(u.push(s.last()) =~= s);
    }
}

proof fn lemma_insert_ranked_bound(t: Seq<String>, x: String, b: nat)
    requires
        forall|j: int| 0 <= j < t.len() ==> key(#[trigger] t[j]) >= b,
        key(x) >= b,
    ensures
        forall|j: int|
            0 <= j < insert_ranked(t, x).len() ==> key(#[trigger] insert_ranked(t, x)[j]) >= b,
        insert_ranked(t, x).len() == t.len() + 1,
    decreases t.len(),
{
    if t.len() == 0 || key(t.last()) >= key(x) {
    } else {
        lemma_insert_ranked_bound(t.drop_last(), x, b);
    }
}

proof fn lemma_insert_ranked_in_order(t: Seq<String>, x: String)
    requires
        ranked_order(t),
    ensures
        ranked_order(insert_ranked(t, x)),
    decreases t.len(),
{
    if t.len() == 0 || key(t.last()) >= key(x) {
        let r = t.push(x);
        assert forall|i: int, j: int| 0 <= i < j < r.len() implies key(#[trigger] r[i]) >= key(
            #[trigger] r[j],
        ) by {
            if j == t.len() && i < t.len() - 1 {
                assert(key(t[i]) >= key(t[t.len() - 1]));
            }
        }
    } else {
        let u = t.drop_last();
        let last = t.last();
        lemma_insert_ranked_in_order(u, x);
        assert forall|j: int| 0 <= j < u.len() implies key(#[trigger] u[j]) >= key(last) by {
            assert(key(t[j]) >= key(t[t.len() - 1]));
        }
        lemma_insert_ranked_bound(u, x, key(last));
        let v = insert_ranked(u, x);
        let r = v.push(last);
        assert forall|i: int, j: int| 0 <= i < j < r.len() implies key(#[trigger] r[i]) >= key(
            #[trigger] r[j],
        ) by {
            if j == v.len() {
                assert(key(v[i]) >= key(last));
            } else {
                assert(key(v[i]) >= key(v[j]));
            }
        }
    }
}

/// The result of ranking never has a word with more different letters after
/// one with fewer.
pub proof fn lemma_ranked_in_order(s: Seq<String>)
    ensures
        ranked_order(ranked(s)),
        ranked(s).len() == s.len(),
    decreases s.len(),
{
    if s.len() > 0 {
        let u = s.drop_last();
        lemma_ranked_in_order(u);
        lemma_insert_ranked_in_order(ranked(u), s.last());
        lemma_insert_ranked_bound(ranked(u), s.last(), 0);
    }
}

/// A sequence already in ranked order is left as it is.
pub proof fn lemma_ranked_keeps_ordered(t: Seq<String>)
    requires
        ranked_order(t),
    ensures
        ranked(t) == t,
    decreases t.len(),
{
    if t.len() > 0 {
        let u = t.drop_last();
        assert(ranked_order(u)) by {
            assert forall|i: int, j: int| 0 <= i < j < u.len() implies key(#[trigger] u[i]) >= key(
                #[trigger] u[j],
            ) by {
                assert(key(t[i]) >= key(t[j]));
            }
        }
        lemma_ranked_keeps_ordered(u);
        if u.len() > 0 {
            assert(key(t[u.len() - 1]) >= key(t[t.len() - 1]));
        }
        assert(u.push(t.last()) =~= t);
    }
}

/// Ranking a ranked sequence again changes nothing.
pub proof fn lemma_rank_idempotent(s: Seq<String>)
    ensures
        ranked(ranked(s)) == ranked(s),
{
    lemma_ranked_in_order(s);
    lemma_ranked_keeps_ordered(ranked(s));
}

/// Holds of the words whose key is `k`.
pub open spec fn keyed(k: nat) -> spec_fn(String) -> bool {
    |w: String| key(w) == k
}

proof fn lemma_insert_ranked_stable(t: Seq<String>, x: String, k: nat)
    ensures
        insert_ranked(t, x).filter(keyed(k)) == if key(x) == k {
            t.filter(keyed(k)).push(x)
        } else {
            t.filter(keyed(k))
        },
    decreases t.len(),
{
    if t.len() == 0 || key(t.last()) >= key(x) {
        t.lemma_filter_push(x, keyed(k));
    } else {
        let u = t.drop_last();
        lemma_insert_ranked_stable(u, x, k);
        insert_ranked(u, x).lemma_filter_push(t.last(), keyed(k));
        u.lemma_filter_push(t.last(), keyed(k));
        assert(u.push(t.last()) =~= t);
    }
}

/// Ranking keeps the relative order of words with equal keys: for each key,
/// the words that have it come out in the order in which they went in.
pub proof fn lemma_ranked_stable(s: Seq<String>, k: nat)
    ensures
        ranked(s).filter(keyed(k)) == s.filter(keyed(k)),
    decreases s.len(),
{
    if s.len() > 0 {
        let u = s.drop_last();
        lemma_ranked_stable(u, k);
        lemma_insert_ranked_stable(ranked(u), s.last(), k);
        u.lemma_filter_push(s.last(), keyed(k));
        assert(u.push(s.last()) =~= s);
    }
}

} // verus!
