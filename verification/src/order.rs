//! Stable sorting by keys made of texts, and first-match search.
use vstd::prelude::*;
use crate::text::{
    compare_texts, lemma_text_order_antisymmetric, lemma_text_order_transitive, text_order,
};

verus! {

/// Lexicographic order of two keys (lists of texts): -1, 0 or 1.
pub open spec fn keys_order(a: Seq<Seq<char>>, b: Seq<Seq<char>>) -> int
    decreases a.len(),
{
    if a.len() == 0 {
        if b.len() == 0 {
            0
        } else {
            -1
        }
    } else if b.len() == 0 {
        1
    } else if text_order(a[0], b[0]) != 0 {
        text_order(a[0], b[0])
    } else {
        keys_order(a.drop_first(), b.drop_first())
    }
}

/// The order is one of -1, 0, 1 and swapping the keys negates it.
pub proof fn lemma_keys_order_antisymmetric(a: Seq<Seq<char>>, b: Seq<Seq<char>>)
    ensures
        keys_order(a, b) == -keys_order(b, a),
        -1 <= keys_order(a, b) <= 1,
    decreases a.len(),
{
    if a.len() > 0 && b.len() > 0 {
        lemma_text_order_antisymmetric(a[0], b[0]);
        lemma_keys_order_antisymmetric(a.drop_first(), b.drop_first());
    }
}

/// "Not after" is transitive on keys.
pub proof fn lemma_keys_order_transitive(a: Seq<Seq<char>>, b: Seq<Seq<char>>, c: Seq<Seq<char>>)
    requires
        keys_order(a, b) <= 0,
        keys_order(b, c) <= 0,
    ensures
        keys_order(a, c) <= 0,
    decreases a.len(),
{
    if a.len() > 0 && b.len() > 0 && c.len() > 0 {
        lemma_text_order_antisymmetric(a[0], b[0]);
        lemma_text_order_antisymmetric(b[0], c[0]);
        lemma_text_order_antisymmetric(a[0], c[0]);
        lemma_text_order_transitive(a[0], b[0], c[0]);
        if text_order(a[0], b[0]) == 0 && text_order(b[0], c[0]) == 0 {
            lemma_keys_order_transitive(a.drop_first(), b.drop_first(), c.drop_first());
        } else if text_order(a[0], c[0]) == 0 {
            // a[0] == c[0], so a[0] <= b[0] <= a[0] forces equality on both sides
            lemma_text_order_transitive(b[0], c[0], a[0]);
            lemma_text_order_transitive(c[0], a[0], b[0]);
        }
    }
}

/// Keys are ordered by their first differing text.
pub proof fn lemma_keys_order_at_first_difference(a: Seq<Seq<char>>, b: Seq<Seq<char>>, i: int)
    requires
        0 <= i < a.len(),
        i < b.len(),
        forall|j: int| 0 <= j < i ==> a[j] == b[j],
        a[i] != b[i],
    ensures
        keys_order(a, b) == text_order(a[i], b[i]),
        keys_order(a, b) != 0,
    decreases i,
{
    lemma_text_order_antisymmetric(a[0], b[0]);
    if i > 0 {
        assert(a[0] == b[0]);
        lemma_text_order_antisymmetric(a[0], a[0]);
        assert(a.drop_first()[i - 1] == a[i]);
        assert(b.drop_first()[i - 1] == b[i]);
        assert forall|j: int| 0 <= j < i - 1 implies a.drop_first()[j] == b.drop_first()[j] by {
            assert(a[j + 1] == b[j + 1]);
        }
        lemma_keys_order_at_first_difference(a.drop_first(), b.drop_first(), i - 1);
    }
}

/// The view of a key: its texts as character sequences.
pub open spec fn key_view(k: Vec<Vec<char>>) -> Seq<Seq<char>> {
    k@.map_values(|t: Vec<char>| t@)
}

/// Compares two keys lexicographically.
pub fn compare_keys(a: &Vec<Vec<char>>, b: &Vec<Vec<char>>) -> (r: i8)
    ensures
        r as int == keys_order(key_view(*a), key_view(*b)),
{
    let ghost ka = key_view(*a);
    let ghost kb = key_view(*b);
    let mut i: usize = 0;
    assert(ka.skip(0) =~= ka);
    assert(kb.skip(0) =~= kb);
    while i < a.len() && i < b.len()
        invariant
            ka == key_view(*a),
            kb == key_view(*b),
            i <= a.len(),
            i <= b.len(),
            keys_order(ka, kb) == keys_order(ka.skip(i as int), kb.skip(i as int)),
        decreases a.len() - i,
    {
        let c = compare_texts(&a[i], &b[i]);
        assert(ka.skip(i as int)[0] == a@[i as int]@);
        assert(kb.skip(i as int)[0] == b@[i as int]@);
        if c != 0 {
            return c;
        }
        assert(ka.skip(i as int).drop_first() =~= ka.skip(i + 1));
        assert(kb.skip(i as int).drop_first() =~= kb.skip(i + 1));
        i += 1;
    }
    if i == a.len() {
        if i == b.len() {
            0
        } else {
            -1
        }
    } else {
        1
    }
}

/// `x` goes before `y` when its key is smaller, or the keys tie and
/// `x` came first in the input.
pub open spec fn placed_before(kx: Seq<Seq<char>>, ix: int, ky: Seq<Seq<char>>, iy: int) -> bool {
    keys_order(kx, ky) < 0 || (keys_order(kx, ky) == 0 && ix < iy)
}

/// `perm` lists, for each output position, the input position it came from.
pub open spec fn is_permutation(perm: Seq<int>, n: int) -> bool {
    &&& perm.len() == n
    &&& forall|k: int| 0 <= k < n ==> 0 <= #[trigger] perm[k] < n
    &&& forall|k1: int, k2: int| 0 <= k1 < k2 < n ==> #[trigger] perm[k1] != #[trigger] perm[k2]
    &&& forall|j: int| 0 <= j < n ==> #[trigger] is_hit(perm, j)
}

/// Some position of `perm` holds `j`.
pub open spec fn is_hit(perm: Seq<int>, j: int) -> bool {
    exists|k: int| 0 <= k < perm.len() && perm[k] == j
}

/// `output` is `input` rearranged through `perm` so that keys never
/// decrease and equal keys keep their input order: a stable sort.
/// `keys[i]` is the key of `input[i]`.
pub open spec fn is_stable_sort<T>(
    input: Seq<T>,
    keys: Seq<Seq<Seq<char>>>,
    output: Seq<T>,
    perm: Seq<int>,
) -> bool {
    &&& keys.len() == input.len()
    &&& output.len() == input.len()
    &&& is_permutation(perm, input.len() as int)
    &&& forall|k: int| 0 <= k < output.len() ==> #[trigger] output[k] == input[perm[k]]
    &&& forall|k1: int, k2: int|
        0 <= k1 < k2 < output.len() ==> placed_before(
            keys[#[trigger] perm[k1]],
            perm[k1],
            keys[#[trigger] perm[k2]],
            perm[k2],
        )
}

/// The keys of keyed entries.
pub open spec fn entry_keys<T>(s: Seq<(Vec<Vec<char>>, T)>) -> Seq<Seq<Seq<char>>> {
    Seq::new(s.len(), |i: int| key_view(s[i].0))
}

/// Sorts entries by key, keeping entries with equal keys in input order.
fn stable_sort_by_key<T>(entries: Vec<(Vec<Vec<char>>, T)>) -> (out: Vec<(Vec<Vec<char>>, T)>)
    ensures
        exists|perm: Seq<int>|
            #[trigger] is_stable_sort(entries@, entry_keys(entries@), out@, perm),
{
    let ghost input = entries@;
    let ghost keys = entry_keys(input);
    let total = entries.len();
    let mut rest = entries;
    let mut out: Vec<(Vec<Vec<char>>, T)> = Vec::new();
    let ghost mut perm: Seq<int> = Seq::empty();
    let mut i: usize = 0;
    assert(input.skip(0) =~= input);
    while rest.len() > 0
        invariant
            keys == entry_keys(input),
            input.len() == total,
            i <= input.len(),
            rest@ == input.skip(i as int),
            out.len() == i,
            is_permutation(perm, i as int),
            forall|k: int| 0 <= k < i ==> #[trigger] out@[k] == input[perm[k]],
            forall|k1: int, k2: int|
                0 <= k1 < k2 < i ==> placed_before(
                    keys[#[trigger] perm[k1]],
                    perm[k1],
                    keys[#[trigger] perm[k2]],
                    perm[k2],
                ),
        decreases rest.len(),
    {
        let e = rest.remove(0);
        assert(e == input[i as int]);
        assert(rest@ =~= input.skip(i + 1));
        let mut p: usize = out.len();
        while p > 0 && compare_keys(&out[p - 1].0, &e.0) > 0
            invariant
                p <= out.len(),
                out.len() == i,
                forall|q: int| p <= q < i ==> keys_order(key_view(#[trigger] out@[q].0), key_view(e.0)) > 0,
            decreases p,
        {
            p -= 1;
        }
        proof {
            assert forall|q: int| 0 <= q < p implies keys_order(
                key_view(#[trigger] out@[q].0),
                key_view(e.0),
            ) <= 0 by {
                assert(keys[perm[q]] == key_view(out@[q].0));
                assert(keys[perm[p - 1]] == key_view(out@[p - 1].0));
                if q < p - 1 {
                    assert(placed_before(keys[perm[q]], perm[q], keys[perm[p - 1]], perm[p - 1]));
                    lemma_keys_order_transitive(
                        key_view(out@[q].0),
                        key_view(out@[p - 1].0),
                        key_view(e.0),
                    );
                }
            }
        }
        let ghost old_out = out@;
        let ghost old_perm = perm;
        out.insert(p, e);
        proof {
            perm = old_perm.insert(p as int, i as int);
            assert forall|k: int| 0 <= k < i + 1 implies #[trigger] out@[k] == input[perm[k]] by {
                if k < p {
                    assert(out@[k] == old_out[k]);
                } else if k > p {
                    assert(out@[k] == old_out[k - 1]);
                }
            }
            assert(keys[i as int] == key_view(e.0));
            assert forall|k: int| 0 <= k < i implies #[trigger] keys[old_perm[k]] == key_view(
                old_out[k].0,
            ) by {}
            assert forall|k1: int, k2: int| 0 <= k1 < k2 < i + 1 implies placed_before(
                keys[#[trigger] perm[k1]],
                perm[k1],
                keys[#[trigger] perm[k2]],
                perm[k2],
            ) by {
                if k1 == p {
                    assert(out@[k2] == old_out[k2 - 1]);
                    assert(perm[k2] == old_perm[k2 - 1]);
                    lemma_keys_order_antisymmetric(key_view(old_out[k2 - 1].0), key_view(e.0));
                } else if k2 == p {
                    assert(out@[k1] == old_out[k1]);
                    assert(perm[k1] == old_perm[k1]);
                } else {
                    let j1 = if k1 < p { k1 } else { k1 - 1 };
                    let j2 = if k2 < p { k2 } else { k2 - 1 };
                    assert(perm[k1] == old_perm[j1]);
                    assert(perm[k2] == old_perm[j2]);
                    assert(placed_before(keys[old_perm[j1]], old_perm[j1], keys[old_perm[j2]], old_perm[j2]));
                }
            }
            assert forall|j: int| 0 <= j < i + 1 implies #[trigger] is_hit(perm, j) by {
                if j == i {
                    assert(perm[p as int] == j);
                } else {
                    assert(is_hit(old_perm, j));
                    let k = choose|k: int| 0 <= k < old_perm.len() && old_perm[k] == j;
                    if k < p {
                        assert(perm[k] == j);
                    } else {
                        assert(perm[k + 1] == j);
                    }
                }
            }
            assert forall|k: int| 0 <= k < i + 1 implies 0 <= #[trigger] perm[k] < i + 1 by {
                if k > p {
                    assert(perm[k] == old_perm[k - 1]);
                }
            }
            assert forall|k1: int, k2: int| 0 <= k1 < k2 < i + 1 implies #[trigger] perm[k1]
                != #[trigger] perm[k2] by {
                if k1 != p && k2 != p {
                    let j1 = if k1 < p { k1 } else { k1 - 1 };
                    let j2 = if k2 < p { k2 } else { k2 - 1 };
                    assert(perm[k1] == old_perm[j1]);
                    assert(perm[k2] == old_perm[j2]);
                } else if k1 == p {
                    assert(perm[k2] == old_perm[k2 - 1]);
                } else {
                    assert(perm[k1] == old_perm[k1]);
                }
            }
        }
        i += 1;
    }
    assert(is_stable_sort(input, keys, out@, perm));
    out
}

/// The views of a list of keys.
pub open spec fn keys_view(ks: Seq<Vec<Vec<char>>>) -> Seq<Seq<Seq<char>>> {
    Seq::new(ks.len(), |i: int| key_view(ks[i]))
}

/// Sorts `items` by `keys` (`keys[i]` belongs to `items[i]`), keeping items
/// with equal keys in their input order.
pub fn sort_by_keys<T>(items: Vec<T>, keys: Vec<Vec<Vec<char>>>) -> (out: Vec<T>)
    requires
        keys.len() == items.len(),
    ensures
        exists|perm: Seq<int>| #[trigger] is_stable_sort(items@, keys_view(keys@), out@, perm),
{
    let ghost items0 = items@;
    let ghost keys0 = keys@;
    let n = items.len();
    let mut items = items;
    let mut keys = keys;
    let mut entries: Vec<(Vec<Vec<char>>, T)> = Vec::new();
    let mut i: usize = 0;
    assert(items0.skip(0) =~= items0);
    assert(keys0.skip(0) =~= keys0);
    while i < n
        invariant
            n == items0.len(),
            keys0.len() == n,
            i <= n,
            items@ == items0.skip(i as int),
            keys@ == keys0.skip(i as int),
            entries.len() == i,
            forall|j: int| 0 <= j < i ==> #[trigger] entries@[j] == (keys0[j], items0[j]),
        decreases n - i,
    {
        let t = items.remove(0);
        let k = keys.remove(0);
        assert(items@ =~= items0.skip(i + 1));
        assert(keys@ =~= keys0.skip(i + 1));
        entries.push((k, t));
        i += 1;
    }
    let ghost e0 = entries@;
    assert(entry_keys(e0) =~= keys_view(keys0));
    let sorted = stable_sort_by_key(entries);
    let ghost s0 = sorted@;
    let ghost perm = choose|perm: Seq<int>| is_stable_sort(e0, entry_keys(e0), s0, perm);
    let mut rest = sorted;
    let mut out: Vec<T> = Vec::new();
    let mut j: usize = 0;
    assert(s0.skip(0) =~= s0);
    while rest.len() > 0
        invariant
            s0.len() == n,
            j <= n,
            rest@ == s0.skip(j as int),
            out.len() == j,
            forall|k: int| 0 <= k < j ==> #[trigger] out@[k] == s0[k].1,
        decreases rest.len(),
    {
        let e = rest.remove(0);
        assert(rest@ =~= s0.skip(j + 1));
        out.push(e.1);
        j += 1;
    }
    assert(is_stable_sort(items0, keys_view(keys0), out@, perm)) by {
        assert forall|k: int| 0 <= k < out@.len() implies #[trigger] out@[k] == items0[perm[k]] by {
            assert(s0[k] == e0[perm[k]]);
        }
    }
    out
}

/// The first position of `s` whose element satisfies `p`.
pub open spec fn first_index_where<T>(s: Seq<T>, p: spec_fn(T) -> bool) -> Option<int>
    decreases s.len(),
{
    if s.len() == 0 {
        None
    } else if p(s[0]) {
        Some(0)
    } else {
        match first_index_where(s.drop_first(), p) {
            Some(k) => Some(k + 1),
            None => None,
        }
    }
}

/// `first_index_where` is the least position that satisfies `p`.
pub proof fn lemma_first_index_where<T>(s: Seq<T>, p: spec_fn(T) -> bool)
    ensures
        match first_index_where(s, p) {
            Some(k) => 0 <= k < s.len() && p(s[k]) && forall|j: int| 0 <= j < k ==> !p(#[trigger] s[j]),
            None => forall|j: int| 0 <= j < s.len() ==> !p(#[trigger] s[j]),
        },
    decreases s.len(),
{
    if s.len() > 0 && !p(s[0]) {
        lemma_first_index_where(s.drop_first(), p);
        match first_index_where(s.drop_first(), p) {
            Some(k) => {
                assert(s.drop_first()[k] == s[k + 1]);
                assert forall|j: int| 0 <= j < k + 1 implies !p(#[trigger] s[j]) by {
                    if j > 0 {
                        assert(s[j] == s.drop_first()[j - 1]);
                    }
                }
            },
            None => {
                assert forall|j: int| 0 <= j < s.len() implies !p(#[trigger] s[j]) by {
                    if j > 0 {
                        assert(s[j] == s.drop_first()[j - 1]);
                    }
                }
            },
        }
    }
}

/// A position `k` that satisfies `p`, with no earlier one, is the first.
pub proof fn lemma_first_index_where_is<T>(s: Seq<T>, p: spec_fn(T) -> bool, k: int)
    requires
        0 <= k < s.len(),
        p(s[k]),
        forall|j: int| 0 <= j < k ==> !p(#[trigger] s[j]),
    ensures
        first_index_where(s, p) == Some(k),
{
    lemma_first_index_where(s, p);
    match first_index_where(s, p) {
        Some(m) => {
            if m < k {
                assert(!p(s[m]));
            } else if m > k {
                assert(!p(s[k]));
            }
        },
        None => {
            assert(!p(s[k]));
        },
    }
}

/// When no position satisfies `p`, there is no first one.
pub proof fn lemma_first_index_where_none<T>(s: Seq<T>, p: spec_fn(T) -> bool)
    requires
        forall|j: int| 0 <= j < s.len() ==> !p(#[trigger] s[j]),
    ensures
        first_index_where(s, p) is None,
{
    lemma_first_index_where(s, p);
    if let Some(m) = first_index_where(s, p) {
        assert(!p(s[m]));
    }
}

} // verus!
