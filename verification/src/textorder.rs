//! The order of texts (`str`'s own order: character by character, a proper
//! prefix first), and a stable sort of positions by a text key.

use vstd::prelude::*;
use vstd::string::*;

verus! {

/// `a` comes strictly before `b`: at the first position where they differ
/// `a` has the smaller character, or `a` is a proper prefix of `b`.
pub open spec fn text_lt(a: Seq<char>, b: Seq<char>) -> bool
    decreases a.len(),
{
    if a.len() == 0 {
        b.len() > 0
    } else if b.len() == 0 {
        false
    } else if a[0] != b[0] {
        (a[0] as int) < (b[0] as int)
    } else {
        text_lt(a.drop_first(), b.drop_first())
    }
}

/// No text comes before itself.
pub proof fn lemma_text_lt_irreflexive(a: Seq<char>)
    ensures
        !text_lt(a, a),
    decreases a.len(),
{
    if a.len() > 0 {
        lemma_text_lt_irreflexive(a.drop_first());
    }
}

/// The order of texts is transitive.
pub proof fn lemma_text_lt_transitive(a: Seq<char>, b: Seq<char>, c: Seq<char>)
    requires
        text_lt(a, b),
        text_lt(b, c),
    ensures
        text_lt(a, c),
    decreases a.len(),
{
    if a.len() > 0 {
        assert(b.len() > 0);
        assert(c.len() > 0);
        if a[0] == b[0] && b[0] == c[0] {
            lemma_text_lt_transitive(a.drop_first(), b.drop_first(), c.drop_first());
        }
    }
}

/// Of two different texts, one comes before the other.
pub proof fn lemma_text_lt_total(a: Seq<char>, b: Seq<char>)
    requires
        a != b,
    ensures
        text_lt(a, b) || text_lt(b, a),
    decreases a.len(),
{
    if a.len() == 0 {
        if b.len() == 0 {
            assert(a =~= b);
        }
    } else if b.len() > 0 && a[0] == b[0] {
        if a.drop_first() == b.drop_first() {
            assert(a =~= seq![a[0]] + a.drop_first());
            assert(b =~= seq![b[0]] + b.drop_first());
        }
        lemma_text_lt_total(a.drop_first(), b.drop_first());
    }
}

/// Whether `a` comes strictly before `b` in `str`'s order.
pub fn text_less(a: &str, b: &str) -> (r: bool)
    ensures
        r == text_lt(a@, b@),
{
    let la = a.unicode_len();
    let lb = b.unicode_len();
    let mut i: usize = 0;
    proof {
        assert(a@.skip(0) =~= a@);
        assert(b@.skip(0) =~= b@);
    }
    while i < la && i < lb
        invariant
            la == a@.len(),
            lb == b@.len(),
            i <= la,
            i <= lb,
            text_lt(a@, b@) == text_lt(a@.skip(i as int), b@.skip(i as int)),
        decreases la - i,
    {
        let ca = a.get_char(i);
        let cb = b.get_char(i);
        assert(a@.skip(i as int)[0] == ca);
        assert(b@.skip(i as int)[0] == cb);
        if ca != cb {
            return (ca as u32) < (cb as u32);
        }
        proof {
            assert(a@.skip(i as int).drop_first() =~= a@.skip(i as int + 1));
            assert(b@.skip(i as int).drop_first() =~= b@.skip(i as int + 1));
        }
        i = i + 1;
    }
    i == la && i < lb
}

/// Position `x` comes before position `y` when their keys are sorted, ties
/// kept in position order.
pub open spec fn key_before(keys: Seq<Seq<char>>, x: int, y: int) -> bool {
    text_lt(keys[x], keys[y]) || (keys[x] == keys[y] && x < y)
}

/// The order of positions by key is transitive.
pub proof fn lemma_key_before_transitive(keys: Seq<Seq<char>>, x: int, y: int, z: int)
    requires
        key_before(keys, x, y),
        key_before(keys, y, z),
    ensures
        key_before(keys, x, z),
{
    if text_lt(keys[x], keys[y]) && text_lt(keys[y], keys[z]) {
        lemma_text_lt_transitive(keys[x], keys[y], keys[z]);
    }
}

/// No position comes before itself, and of two different positions one
/// comes before the other.
pub proof fn lemma_key_before_strict_total(keys: Seq<Seq<char>>, x: int, y: int)
    ensures
        !key_before(keys, x, x),
        x != y ==> key_before(keys, x, y) || key_before(keys, y, x),
        key_before(keys, x, y) ==> !key_before(keys, y, x),
{
    lemma_text_lt_irreflexive(keys[x]);
    if keys[x] != keys[y] {
        lemma_text_lt_total(keys[x], keys[y]);
    }
    if text_lt(keys[x], keys[y]) && text_lt(keys[y], keys[x]) {
        lemma_text_lt_transitive(keys[x], keys[y], keys[x]);
    }
}

/// The views of a list of texts.
pub open spec fn views(v: Seq<String>) -> Seq<Seq<char>> {
    v.map_values(|s: String| s@)
}

/// `s` lists each position below `n` exactly once, in key order.
pub open spec fn sorted_positions(keys: Seq<Seq<char>>, s: Seq<usize>) -> bool {
    &&& s.len() == keys.len()
    &&& forall|k: int| 0 <= k < s.len() ==> (#[trigger] s[k]) < keys.len()
    &&& forall|a: int, b: int| 0 <= a < b < s.len() ==> key_before(keys, #[trigger] s[a] as int, #[trigger] s[b] as int)
}

/// The positions of `keys`, sorted by key; equal keys keep their order.
pub fn sort_positions_by_text(keys: &Vec<String>) -> (r: Vec<usize>)
    ensures
        sorted_positions(views(keys@), r@),
        r@.no_duplicates(),
{
    let ghost ks = views(keys@);
    let mut r: Vec<usize> = Vec::new();
    let mut k: usize = 0;
    while k < keys.len()
        invariant
            ks == views(keys@),
            k <= keys@.len(),
            r@.len() == k,
            forall|q: int| 0 <= q < r@.len() ==> (#[trigger] r@[q]) < k,
            forall|a: int, b: int| 0 <= a < b < r@.len() ==> key_before(ks, #[trigger] r@[a] as int, #[trigger] r@[b] as int),
        decreases keys@.len() - k,
    {
        let mut p: usize = 0;
        while p < r.len() && (text_less(keys[r[p]].as_str(), keys[k].as_str()) || (keys[r[p]] == keys[k] && r[p]
            < k))
            invariant
                ks == views(keys@),
                k < keys@.len(),
                p <= r@.len(),
                forall|q: int| 0 <= q < r@.len() ==> (#[trigger] r@[q]) < k,
                forall|q: int| 0 <= q < p ==> key_before(ks, #[trigger] r@[q] as int, k as int),
            decreases r@.len() - p,
        {
            p = p + 1;
        }
        let ghost old_r = r@;
        proof {
            assert forall|q: int| p <= q < old_r.len() implies key_before(ks, k as int, #[trigger] old_r[q] as int) by {
                let y = old_r[p as int] as int;
                assert(!key_before(ks, y, k as int));
                lemma_key_before_strict_total(ks, y, k as int);
                if q > p {
                    lemma_key_before_transitive(ks, k as int, y, old_r[q] as int);
                }
            }
        }
        r.insert(p, k);
        proof {
            assert(r@ == old_r.insert(p as int, k));
            assert forall|a: int, b: int| 0 <= a < b < r@.len() implies key_before(
                ks,
                #[trigger] r@[a] as int,
                #[trigger] r@[b] as int,
            ) by {
                if a < p && b > p {
                    lemma_key_before_transitive(ks, old_r[a] as int, k as int, old_r[b - 1] as int);
                } else if a < p && b == p {
                } else if a < p {
                } else if a == p {
                } else {
                    assert(r@[a] == old_r[a - 1] && r@[b] == old_r[b - 1]);
                }
            }
        }
        k = k + 1;
    }
    proof {
        assert forall|a: int, b: int| 0 <= a < r@.len() && 0 <= b < r@.len() && a != b implies r@[a] != r@[b] by {
            if a < b {
                lemma_key_before_strict_total(ks, r@[a] as int, r@[b] as int);
            } else {
                lemma_key_before_strict_total(ks, r@[b] as int, r@[a] as int);
            }
        }
    }
    r
}

} // verus!
