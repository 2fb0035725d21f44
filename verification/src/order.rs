//! The orders of the port list and a stable sort by them.
use vstd::prelude::*;

use crate::app::SortMode;
use crate::scanner::{entry_views, EntryView, PortEntry};
use crate::text::{chars_of, lowercase, to_lowercase};

verus! {

/// `a` comes no later than `b` in lexicographic order: the order of `Ord`
/// on slices, and on strings when their characters are taken as code
/// points, since UTF-8 keeps the order of code points.
pub open spec fn lex_le(a: Seq<u32>, b: Seq<u32>) -> bool
    decreases a.len(),
{
    if a.len() == 0 {
        true
    } else if b.len() == 0 {
        false
    } else if a[0] < b[0] {
        true
    } else if a[0] > b[0] {
        false
    } else {
        lex_le(a.drop_first(), b.drop_first())
    }
}

/// Lexicographic order is reflexive.
pub proof fn lemma_lex_le_reflexive(a: Seq<u32>)
    ensures
        lex_le(a, a),
    decreases a.len(),
{
    if a.len() > 0 {
        lemma_lex_le_reflexive(a.drop_first());
    }
}

/// Lexicographic order is total.
pub proof fn lemma_lex_le_total(a: Seq<u32>, b: Seq<u32>)
    ensures
        lex_le(a, b) || lex_le(b, a),
    decreases a.len(),
{
    if a.len() > 0 && b.len() > 0 && a[0] == b[0] {
        lemma_lex_le_total(a.drop_first(), b.drop_first());
    }
}

/// Lexicographic order is antisymmetric.
pub proof fn lemma_lex_le_antisymmetric(a: Seq<u32>, b: Seq<u32>)
    requires
        lex_le(a, b),
        lex_le(b, a),
    ensures
        a == b,
    decreases a.len(),
{
    if a.len() > 0 {
        lemma_lex_le_antisymmetric(a.drop_first(), b.drop_first());
        assert(a =~= seq![a[0]] + a.drop_first());
        assert(b =~= seq![b[0]] + b.drop_first());
    } else {
        assert(b.len() == 0);
        assert(a =~= b);
    }
}

/// Lexicographic order is transitive.
pub proof fn lemma_lex_le_transitive(a: Seq<u32>, b: Seq<u32>, c: Seq<u32>)
    requires
        lex_le(a, b),
        lex_le(b, c),
    ensures
        lex_le(a, c),
    decreases a.len(),
{
    if a.len() > 0 && b.len() > 0 && c.len() > 0 && a[0] == b[0] && b[0] == c[0] {
        lemma_lex_le_transitive(a.drop_first(), b.drop_first(), c.drop_first());
    }
}

/// The code points of a text.
pub open spec fn code_points(s: Seq<char>) -> Seq<u32> {
    s.map_values(|c: char| c as u32)
}

/// What an entry is sorted by: its port, its PID, or its command name in
/// lower case.
pub open spec fn sort_key(mode: SortMode, e: EntryView) -> Seq<u32> {
    match mode {
        SortMode::Port => seq![e.port as u32],
        SortMode::Pid => seq![e.pid],
        SortMode::Process => code_points(lowercase(e.process)),
    }
}

/// `p` lists the indices of `s` in the order of a stable sort by `mode`:
/// each index once, keys in order, and entries with equal keys in the order
/// they had in `s`.
pub open spec fn stable_order(mode: SortMode, s: Seq<EntryView>, p: Seq<int>) -> bool {
    &&& p.len() == s.len()
    &&& forall|k: int| 0 <= k < p.len() ==> 0 <= #[trigger] p[k] < s.len()
    &&& forall|a: int, b: int| 0 <= a < b < p.len() ==> p[a] != p[b]
    &&& forall|a: int, b: int|
        0 <= a < b < p.len() ==> lex_le(
            sort_key(mode, s[#[trigger] p[a]]),
            sort_key(mode, s[#[trigger] p[b]]),
        )
    &&& forall|a: int, b: int|
        0 <= a < b < p.len() && sort_key(mode, s[#[trigger] p[a]]) == sort_key(
            mode,
            s[#[trigger] p[b]],
        ) ==> p[a] < p[b]
}

/// `r` is `s` sorted stably by `mode`, as `sort_by_key` and `sort_by` sort.
pub open spec fn stably_sorted(mode: SortMode, s: Seq<EntryView>, r: Seq<EntryView>) -> bool {
    exists|p: Seq<int>| stable_order(mode, s, p) && r == p.map_values(|k: int| s[k])
}

/// The code points of `v`.
fn code_points_of(v: &Vec<char>) -> (r: Vec<u32>)
    ensures
        r@ == code_points(v@),
{
    let mut r: Vec<u32> = Vec::new();
    let mut i: usize = 0;
    while i < v.len()
        invariant
            i <= v.len(),
            r@ == code_points(v@.take(i as int)),
        decreases v.len() - i,
    {
        r.push(v[i] as u32);
        assert(code_points(v@.take(i + 1)) =~= code_points(v@.take(i as int)).push(v@[i as int] as u32));
        i += 1;
    }
    assert(v@.take(v.len() as int) =~= v@);
    r
}

/// The key by which `mode` sorts `e`.
fn key_of(mode: SortMode, e: &PortEntry) -> (r: Vec<u32>)
    ensures
        r@ == sort_key(mode, e@),
{
    match mode {
        SortMode::Port => {
            let mut r: Vec<u32> = Vec::new();
            r.push(e.port as u32);
            assert(r@ =~= seq![e.port as u32]);
            r
        },
        SortMode::Pid => {
            let mut r: Vec<u32> = Vec::new();
            r.push(e.pid);
            assert(r@ =~= seq![e.pid]);
            r
        },
        SortMode::Process => {
            let low = to_lowercase(e.process.as_str());
            code_points_of(&chars_of(low.as_str()))
        },
    }
}

/// Whether `a` comes no later than `b` in lexicographic order.
fn lex_le_exec(a: &Vec<u32>, b: &Vec<u32>) -> (r: bool)
    ensures
        r == lex_le(a@, b@),
{
    let mut k: usize = 0;
    assert(a@.skip(0) =~= a@);
    assert(b@.skip(0) =~= b@);
    while k < a.len() && k < b.len()
        invariant
            k <= a.len(),
            k <= b.len(),
            lex_le(a@, b@) == lex_le(a@.skip(k as int), b@.skip(k as int)),
        decreases a.len() - k,
    {
        assert(a@.skip(k as int)[0] == a@[k as int]);
        assert(b@.skip(k as int)[0] == b@[k as int]);
        if a[k] < b[k] {
            return true;
        }
        if a[k] > b[k] {
            return false;
        }
        assert(a@.skip(k as int).drop_first() =~= a@.skip(k + 1));
        assert(b@.skip(k as int).drop_first() =~= b@.skip(k + 1));
        k += 1;
    }
    a.len() <= k
}


/// The keys are in lexicographic order.
pub open spec fn keys_sorted(ks: Seq<Seq<u32>>) -> bool {
    forall|a: int, b: int| 0 <= a < b < ks.len() ==> lex_le(#[trigger] ks[a], #[trigger] ks[b])
}

/// Equal keys come in the order of the input indices `p` they were taken from.
pub open spec fn keys_stable(ks: Seq<Seq<u32>>, p: Seq<int>) -> bool {
    forall|a: int, b: int|
        0 <= a < b < ks.len() && #[trigger] ks[a] == #[trigger] ks[b] ==> p[a] < p[b]
}

proof fn lemma_insert_keeps_order(
    ks: Seq<Seq<u32>>,
    p: Seq<int>,
    pos: int,
    kx: Seq<u32>,
    ix: int,
)
    requires
        ks.len() == p.len(),
        0 <= pos <= ks.len(),
        keys_sorted(ks),
        keys_stable(ks, p),
        forall|a: int| 0 <= a < pos ==> !lex_le(kx, #[trigger] ks[a]),
        pos < ks.len() ==> lex_le(kx, ks[pos]),
        forall|k: int| 0 <= k < p.len() ==> ix < #[trigger] p[k],
    ensures
        keys_sorted(ks.insert(pos, kx)),
        keys_stable(ks.insert(pos, kx), p.insert(pos, ix)),
{
    let nks = ks.insert(pos, kx);
    let np = p.insert(pos, ix);
    assert forall|a: int| 0 <= a < pos implies lex_le(#[trigger] ks[a], kx) && ks[a] != kx by {
        lemma_lex_le_total(kx, ks[a]);
        if ks[a] == kx {
            lemma_lex_le_reflexive(kx);
        }
    }
    assert forall|b: int| pos <= b < ks.len() implies lex_le(kx, #[trigger] ks[b]) by {
        if b > pos {
            lemma_lex_le_transitive(kx, ks[pos], ks[b]);
        }
    }
    assert forall|a: int, b: int| 0 <= a < b < nks.len() implies lex_le(
        #[trigger] nks[a],
        #[trigger] nks[b],
    ) by {
        if b < pos {
        } else if b == pos {
        } else if a < pos {
            lemma_lex_le_transitive(ks[a], kx, ks[b - 1]);
        } else if a == pos {
        } else {
        }
    }
    assert forall|a: int, b: int|
        0 <= a < b < nks.len() && #[trigger] nks[a] == #[trigger] nks[b] implies np[a] < np[b] by {
        if b < pos {
        } else if b == pos {
            assert(ks[a] != kx);
        } else if a < pos {
        } else if a == pos {
        } else {
        }
    }
}

/// The entries of `v` sorted stably by `mode`.
pub fn sort_ports(v: &mut Vec<PortEntry>, mode: SortMode)
    ensures
        stably_sorted(mode, entry_views(old(v)@), entry_views(final(v)@)),
{
    let mut src: Vec<PortEntry> = Vec::new();
    std::mem::swap(&mut src, v);
    let ghost orig = entry_views(src@);
    let n = src.len();
    let mut keys: Vec<Vec<u32>> = Vec::new();
    let mut i: usize = 0;
    while i < n
        invariant
            i <= n,
            n == src.len(),
            orig == entry_views(src@),
            keys.len() == i,
            forall|k: int| 0 <= k < i ==> (#[trigger] keys@[k])@ == sort_key(mode, orig[k]),
        decreases n - i,
    {
        let k = key_of(mode, &src[i]);
        keys.push(k);
        i += 1;
    }
    let mut out_e: Vec<PortEntry> = Vec::new();
    let mut out_k: Vec<Vec<u32>> = Vec::new();
    let ghost mut perm: Seq<int> = seq![];
    while src.len() > 0
        invariant
            src.len() == keys.len() <= n,
            n == orig.len(),
            entry_views(src@) == orig.take(src.len() as int),
            forall|k: int| 0 <= k < keys.len() ==> (#[trigger] keys@[k])@ == sort_key(mode, orig[k]),
            out_e.len() == out_k.len(),
            perm.len() == out_k.len(),
            out_k.len() == n - src.len(),
            forall|k: int| 0 <= k < perm.len() ==> src.len() <= #[trigger] perm[k] < n,
            forall|a: int, b: int| 0 <= a < b < perm.len() ==> perm[a] != perm[b],
            forall|k: int| 0 <= k < out_e.len() ==> (#[trigger] out_e@[k])@ == orig[perm[k]],
            forall|k: int| 0 <= k < out_k.len() ==> (#[trigger] out_k@[k])@ == sort_key(mode, orig[perm[k]]),
            keys_sorted(out_k@.map_values(|t: Vec<u32>| t@)),
            keys_stable(out_k@.map_values(|t: Vec<u32>| t@), perm),
        decreases src.len(),
    {
        let ghost ix = src.len() - 1;
        let ghost old_src = src@;
        let e = src.pop().unwrap();
        let kx = keys.pop().unwrap();
        assert(e@ == orig[ix]) by {
            assert(entry_views(old_src)[ix] == orig.take(old_src.len() as int)[ix]);
        }
        assert(entry_views(src@) =~= orig.take(src.len() as int)) by {
            assert forall|k: int| 0 <= k < src.len() implies entry_views(src@)[k] == orig[k] by {
                assert(src@[k] == old_src[k]);
                assert(entry_views(old_src)[k] == orig.take(old_src.len() as int)[k]);
            }
        }
        let ghost ks = out_k@.map_values(|t: Vec<u32>| t@);
        let mut pos: usize = 0;
        while pos < out_k.len() && !lex_le_exec(&kx, &out_k[pos])
            invariant
                pos <= out_k.len(),
                ks == out_k@.map_values(|t: Vec<u32>| t@),
                forall|a: int| 0 <= a < pos ==> !lex_le(kx@, #[trigger] ks[a]),
            decreases out_k.len() - pos,
        {
            pos += 1;
        }
        proof {
            lemma_insert_keeps_order(ks, perm, pos as int, kx@, ix);
        }
        let ghost old_e = out_e@;
        let ghost old_k = out_k@;
        let ghost old_perm = perm;
        out_e.insert(pos, e);
        out_k.insert(pos, kx);
        proof {
            perm = perm.insert(pos as int, ix);
        }
        assert(out_k@.map_values(|t: Vec<u32>| t@) =~= ks.insert(pos as int, kx@));
        assert forall|k: int| 0 <= k < perm.len() implies src.len() <= #[trigger] perm[k] < n by {
            if k != pos {
                if k < pos {
                    assert(perm[k] == old_perm[k]);
                } else {
                    assert(perm[k] == old_perm[k - 1]);
                }
            }
        }
        assert forall|k: int| 0 <= k < out_e.len() implies (#[trigger] out_e@[k])@ == orig[perm[k]] by {
            if k < pos {
                assert(out_e@[k] == old_e[k]);
            } else if k > pos {
                assert(out_e@[k] == old_e[k - 1]);
            }
        }
        assert forall|k: int| 0 <= k < out_k.len() implies (#[trigger] out_k@[k])@ == sort_key(mode, orig[perm[k]]) by {
            if k < pos {
                assert(out_k@[k] == old_k[k]);
            } else if k > pos {
                assert(out_k@[k] == old_k[k - 1]);
            }
        }
        assert forall|a: int, b: int| 0 <= a < b < perm.len() implies perm[a] != perm[b] by {
            if a < pos && b < pos {
            } else if a < pos && b > pos {
                assert(perm[b] == old_perm[b - 1]);
            } else if a > pos {
                assert(perm[a] == old_perm[a - 1]);
                assert(perm[b] == old_perm[b - 1]);
            }
        }
    }
    proof {
        assert(stable_order(mode, orig, perm)) by {
            assert forall|a: int, b: int| 0 <= a < b < perm.len() implies lex_le(
                sort_key(mode, orig[#[trigger] perm[a]]),
                sort_key(mode, orig[#[trigger] perm[b]]),
            ) by {
                let ks = out_k@.map_values(|t: Vec<u32>| t@);
                assert(ks[a] == out_k@[a]@);
                assert(ks[b] == out_k@[b]@);
            }
            assert forall|a: int, b: int|
                0 <= a < b < perm.len() && sort_key(mode, orig[#[trigger] perm[a]]) == sort_key(
                    mode,
                    orig[#[trigger] perm[b]],
                ) implies perm[a] < perm[b] by {
                let ks = out_k@.map_values(|t: Vec<u32>| t@);
                assert(ks[a] == out_k@[a]@);
                assert(ks[b] == out_k@[b]@);
            }
        }
        assert(entry_views(out_e@) =~= perm.map_values(|k: int| orig[k]));
    }
    *v = out_e;
}


/// The entries of `s` are already in order by `mode`.
pub open spec fn in_order(mode: SortMode, s: Seq<EntryView>) -> bool {
    forall|a: int, b: int|
        0 <= a < b < s.len() ==> lex_le(sort_key(mode, #[trigger] s[a]), sort_key(mode, #[trigger] s[b]))
}

proof fn lemma_increasing_is_identity(p: Seq<int>, n: int)
    requires
        p.len() == n,
        forall|k: int| 0 <= k < n ==> 0 <= #[trigger] p[k] < n,
        forall|a: int, b: int| 0 <= a < b < n ==> #[trigger] p[a] < #[trigger] p[b],
    ensures
        forall|k: int| 0 <= k < n ==> #[trigger] p[k] == k,
{
    assert forall|k: int| 0 <= k < n implies #[trigger] p[k] >= k by {
        lemma_increasing_lower(p, n, k);
    }
    assert forall|k: int| 0 <= k < n implies #[trigger] p[k] <= k by {
        lemma_increasing_upper(p, n, k);
    }
}

proof fn lemma_increasing_lower(p: Seq<int>, n: int, k: int)
    requires
        p.len() == n,
        0 <= k < n,
        forall|j: int| 0 <= j < n ==> 0 <= #[trigger] p[j] < n,
        forall|a: int, b: int| 0 <= a < b < n ==> #[trigger] p[a] < #[trigger] p[b],
    ensures
        p[k] >= k,
    decreases k,
{
    if k > 0 {
        lemma_increasing_lower(p, n, k - 1);
        assert(p[k - 1] < p[k]);
    }
}

proof fn lemma_increasing_upper(p: Seq<int>, n: int, k: int)
    requires
        p.len() == n,
        0 <= k < n,
        forall|j: int| 0 <= j < n ==> 0 <= #[trigger] p[j] < n,
        forall|a: int, b: int| 0 <= a < b < n ==> #[trigger] p[a] < #[trigger] p[b],
    ensures
        p[k] <= k,
    decreases n - k,
{
    if k < n - 1 {
        lemma_increasing_upper(p, n, k + 1);
        assert(p[k] < p[k + 1]);
    }
}

/// A stable sort leaves a list that is already in order as it is.
pub proof fn lemma_sorting_sorted_is_identity(mode: SortMode, s: Seq<EntryView>, r: Seq<EntryView>)
    requires
        in_order(mode, s),
        stably_sorted(mode, s, r),
    ensures
        r == s,
{
    let p = choose|p: Seq<int>| stable_order(mode, s, p) && r == p.map_values(|k: int| s[k]);
    let n = s.len() as int;
    assert forall|a: int, b: int| 0 <= a < b < n implies #[trigger] p[a] < #[trigger] p[b] by {
        if p[a] > p[b] {
            assert(lex_le(sort_key(mode, s[p[b]]), sort_key(mode, s[p[a]])));
            assert(lex_le(sort_key(mode, s[p[a]]), sort_key(mode, s[p[b]])));
            lemma_lex_le_antisymmetric(sort_key(mode, s[p[a]]), sort_key(mode, s[p[b]]));
        }
    }
    lemma_increasing_is_identity(p, n);
    assert(r =~= s);
}

/// What a stable sort yields is in order.
pub proof fn lemma_sorted_is_in_order(mode: SortMode, s: Seq<EntryView>, r: Seq<EntryView>)
    requires
        stably_sorted(mode, s, r),
    ensures
        in_order(mode, r),
{
    let p = choose|p: Seq<int>| stable_order(mode, s, p) && r == p.map_values(|k: int| s[k]);
    assert forall|a: int, b: int| 0 <= a < b < r.len() implies lex_le(
        sort_key(mode, #[trigger] r[a]),
        sort_key(mode, #[trigger] r[b]),
    ) by {
        assert(r[a] == s[p[a]]);
        assert(r[b] == s[p[b]]);
    }
}

/// Sorting twice by the same order gives what sorting once gave.
pub proof fn lemma_sort_idempotent(mode: SortMode, s: Seq<EntryView>, r: Seq<EntryView>, r2: Seq<EntryView>)
    requires
        stably_sorted(mode, s, r),
        stably_sorted(mode, r, r2),
    ensures
        r2 == r,
{
    lemma_sorted_is_in_order(mode, s, r);
    lemma_sorting_sorted_is_identity(mode, r, r2);
}


/// `p` lists each of `0..n` once.
pub open spec fn is_permutation(p: Seq<int>, n: int) -> bool {
    &&& p.len() == n
    &&& forall|k: int| 0 <= k < p.len() ==> 0 <= #[trigger] p[k] < n
    &&& forall|a: int, b: int| 0 <= a < b < p.len() ==> p[a] != p[b]
}

/// Some entry of the first `n` of `p` is `v`.
pub open spec fn takes_value(p: Seq<int>, n: int, v: int) -> bool {
    exists|k: int| 0 <= k < n && p[k] == v
}

proof fn lemma_permutation_hits_all(p: Seq<int>, n: int)
    requires
        is_permutation(p, n),
    ensures
        forall|v: int| 0 <= v < n ==> #[trigger] takes_value(p, n, v),
    decreases n,
{
    if n > 0 {
        if !(exists|j: int| 0 <= j < n && p[j] == n - 1) {
            let q = p.drop_last();
            assert(is_permutation(q, n - 1)) by {
                assert forall|k: int| 0 <= k < q.len() implies 0 <= #[trigger] q[k] < n - 1 by {
                    assert(q[k] == p[k]);
                }
            }
            lemma_permutation_hits_all(q, n - 1);
            let last = p[n - 1];
            assert(0 <= last < n - 1);
            assert(takes_value(q, n - 1, last));
            let k = choose|k: int| 0 <= k < n - 1 && q[k] == last;
            assert(p[k] == q[k]);
            assert(false);
        }
        let j = choose|j: int| 0 <= j < n && p[j] == n - 1;
        let q = p.remove(j);
        assert(is_permutation(q, n - 1)) by {
            assert forall|k: int| 0 <= k < q.len() implies 0 <= #[trigger] q[k] < n - 1 by {
                if k < j {
                    assert(q[k] == p[k]);
                } else {
                    assert(q[k] == p[k + 1]);
                }
            }
            assert forall|a: int, b: int| 0 <= a < b < q.len() implies q[a] != q[b] by {
                let a2 = if a < j { a } else { a + 1 };
                let b2 = if b < j { b } else { b + 1 };
                assert(q[a] == p[a2]);
                assert(q[b] == p[b2]);
            }
        }
        lemma_permutation_hits_all(q, n - 1);
        assert forall|v: int| 0 <= v < n implies #[trigger] takes_value(p, n, v) by {
            if v == n - 1 {
                assert(p[j] == v);
            } else {
                assert(takes_value(q, n - 1, v));
                let k = choose|k: int| 0 <= k < n - 1 && q[k] == v;
                if k < j {
                    assert(p[k] == v);
                } else {
                    assert(p[k + 1] == v);
                }
            }
        }
    }
}

/// A stable sort has one outcome: two orders that both sort `s` stably
/// by `mode` are the same.
pub proof fn lemma_stable_order_unique(mode: SortMode, s: Seq<EntryView>, p: Seq<int>, q: Seq<int>)
    requires
        stable_order(mode, s, p),
        stable_order(mode, s, q),
    ensures
        p == q,
{
    let n = s.len() as int;
    if p != q {
        assert(!(p =~= q));
        let k0 = choose|k: int| 0 <= k < n && p[k] != q[k];
        lemma_first_difference(p, q, k0);
        let k = choose|k: int| 0 <= k < n && p[k] != q[k] && forall|j: int| 0 <= j < k ==> p[j] == q[j];
        let a = p[k];
        let b = q[k];
        assert(is_permutation(p, n));
        assert(is_permutation(q, n));
        lemma_permutation_hits_all(p, n);
        lemma_permutation_hits_all(q, n);
        assert(takes_value(p, n, b));
        assert(takes_value(q, n, a));
        let kb = choose|i: int| 0 <= i < n && p[i] == b;
        let ka = choose|i: int| 0 <= i < n && q[i] == a;
        if kb < k {
            assert(q[kb] == b);
        }
        if ka < k {
            assert(p[ka] == a);
        }
        assert(kb > k);
        assert(ka > k);
        assert(lex_le(sort_key(mode, s[p[k]]), sort_key(mode, s[p[kb]])));
        assert(lex_le(sort_key(mode, s[q[k]]), sort_key(mode, s[q[ka]])));
        lemma_lex_le_antisymmetric(sort_key(mode, s[a]), sort_key(mode, s[b]));
        assert(p[k] < p[kb]);
        assert(q[k] < q[ka]);
    }
}

proof fn lemma_first_difference(p: Seq<int>, q: Seq<int>, k0: int)
    requires
        0 <= k0 < p.len(),
        p.len() == q.len(),
        p[k0] != q[k0],
    ensures
        exists|k: int| 0 <= k < p.len() && p[k] != q[k] && forall|j: int| 0 <= j < k ==> p[j] == q[j],
    decreases k0,
{
    if exists|j: int| 0 <= j < k0 && p[j] != q[j] {
        let j = choose|j: int| 0 <= j < k0 && p[j] != q[j];
        lemma_first_difference(p, q, j);
    } else {
        assert(forall|j: int| 0 <= j < k0 ==> p[j] == q[j]);
    }
}

/// Sorting is deterministic: a list has one stable sort by a given order.
pub proof fn lemma_stable_sort_unique(mode: SortMode, s: Seq<EntryView>, r1: Seq<EntryView>, r2: Seq<EntryView>)
    requires
        stably_sorted(mode, s, r1),
        stably_sorted(mode, s, r2),
    ensures
        r1 == r2,
{
    let p = choose|p: Seq<int>| stable_order(mode, s, p) && r1 == p.map_values(|k: int| s[k]);
    let q = choose|q: Seq<int>| stable_order(mode, s, q) && r2 == q.map_values(|k: int| s[k]);
    lemma_stable_order_unique(mode, s, p, q);
}


proof fn lemma_permuted_multiset(s: Seq<EntryView>, p: Seq<int>)
    requires
        is_permutation(p, s.len() as int),
    ensures
        p.map_values(|k: int| s[k]).to_multiset() == s.to_multiset(),
    decreases s.len(),
{
    broadcast use vstd::seq_lib::to_multiset_build, vstd::seq_lib::to_multiset_insert;

    let n = s.len() as int;
    let r = p.map_values(|k: int| s[k]);
    if n == 0 {
        assert(r =~= s);
    } else {
        lemma_permutation_hits_all(p, n);
        assert(takes_value(p, n, n - 1));
        let j = choose|j: int| 0 <= j < n && p[j] == n - 1;
        let q = p.remove(j);
        let t = s.drop_last();
        assert(is_permutation(q, n - 1)) by {
            assert forall|k: int| 0 <= k < q.len() implies 0 <= #[trigger] q[k] < n - 1 by {
                if k < j {
                    assert(q[k] == p[k]);
                    assert(p[k] != p[j]);
                } else {
                    assert(q[k] == p[k + 1]);
                    assert(p[k + 1] != p[j]);
                }
            }
            assert forall|a: int, b: int| 0 <= a < b < q.len() implies q[a] != q[b] by {
                let a2 = if a < j { a } else { a + 1 };
                let b2 = if b < j { b } else { b + 1 };
                assert(q[a] == p[a2]);
                assert(q[b] == p[b2]);
            }
        }
        lemma_permuted_multiset(t, q);
        let rq = q.map_values(|k: int| t[k]);
        assert(rq =~= r.remove(j)) by {
            assert forall|k: int| 0 <= k < rq.len() implies rq[k] == r.remove(j)[k] by {
                if k < j {
                    assert(q[k] == p[k]);
                } else {
                    assert(q[k] == p[k + 1]);
                }
            }
        }
        assert(r =~= r.remove(j).insert(j, r[j]));
        assert(r[j] == s.last());
        assert(s =~= t.push(s.last()));
    }
}

/// Sorting only rearranges: the sorted list holds the same entries, each as
/// many times.
pub proof fn lemma_sorted_same_entries(mode: SortMode, s: Seq<EntryView>, r: Seq<EntryView>)
    requires
        stably_sorted(mode, s, r),
    ensures
        r.to_multiset() == s.to_multiset(),
{
    let p = choose|p: Seq<int>| stable_order(mode, s, p) && r == p.map_values(|k: int| s[k]);
    lemma_permuted_multiset(s, p);
}

/// One-number keys are in order exactly when their numbers are.
proof fn lemma_lex_le_single(x: u32, y: u32)
    ensures
        lex_le(seq![x], seq![y]) <==> x <= y,
        seq![x] == seq![y] <==> x == y,
{
    reveal_with_fuel(lex_le, 2);
    assert(seq![x].drop_first() =~= Seq::<u32>::empty());
    assert(seq![y].drop_first() =~= Seq::<u32>::empty());
    if seq![x] == seq![y] {
        assert(seq![x][0] == seq![y][0]);
    }
}

/// A sort by port puts the ports in non-decreasing order, and a sort by PID
/// the PIDs; entries with the same port (or PID) keep the order they had:
/// the result is the input rearranged by a permutation `p` that is
/// increasing wherever the sorted field repeats. A sort by name puts the
/// lower-case commands in code-point order.
pub proof fn lemma_sorted_by_field(mode: SortMode, s: Seq<EntryView>, r: Seq<EntryView>)
    requires
        stably_sorted(mode, s, r),
    ensures
        mode == SortMode::Port ==> forall|a: int, b: int|
            0 <= a < b < r.len() ==> #[trigger] r[a].port <= #[trigger] r[b].port,
        mode == SortMode::Pid ==> forall|a: int, b: int|
            0 <= a < b < r.len() ==> #[trigger] r[a].pid <= #[trigger] r[b].pid,
        mode == SortMode::Process ==> forall|a: int, b: int|
            0 <= a < b < r.len() ==> lex_le(
                code_points(lowercase(#[trigger] r[a].process)),
                code_points(lowercase(#[trigger] r[b].process)),
            ),
        exists|p: Seq<int>|
            {
                &&& #[trigger] is_permutation(p, s.len() as int)
                &&& r.len() == s.len()
                &&& forall|k: int| 0 <= k < r.len() ==> r[k] == s[#[trigger] p[k]]
                &&& mode == SortMode::Port ==> forall|a: int, b: int|
                    0 <= a < b < r.len() && r[a].port == r[b].port ==> #[trigger] p[a] < #[trigger] p[b]
                &&& mode == SortMode::Pid ==> forall|a: int, b: int|
                    0 <= a < b < r.len() && r[a].pid == r[b].pid ==> #[trigger] p[a] < #[trigger] p[b]
            },
{
    let p = choose|p: Seq<int>| stable_order(mode, s, p) && r == p.map_values(|k: int| s[k]);
    assert forall|a: int, b: int| 0 <= a < b < r.len() implies lex_le(
        sort_key(mode, #[trigger] r[a]),
        sort_key(mode, #[trigger] r[b]),
    ) && (sort_key(mode, r[a]) == sort_key(mode, r[b]) ==> p[a] < p[b]) by {
        assert(r[a] == s[p[a]]);
        assert(r[b] == s[p[b]]);
    }
    assert forall|a: int, b: int| 0 <= a < b < r.len() implies
        (mode == SortMode::Port ==> r[a].port <= r[b].port && (r[a].port == r[b].port ==> p[a] < p[b]))
        && (mode == SortMode::Pid ==> r[a].pid <= r[b].pid && (r[a].pid == r[b].pid ==> p[a] < p[b])) by {
        assert(lex_le(sort_key(mode, r[a]), sort_key(mode, r[b])));
        if mode == SortMode::Port {
            lemma_lex_le_single(r[a].port as u32, r[b].port as u32);
        }
        if mode == SortMode::Pid {
            lemma_lex_le_single(r[a].pid, r[b].pid);
        }
    }
    assert(is_permutation(p, s.len() as int));
    assert forall|k: int| 0 <= k < r.len() implies r[k] == s[#[trigger] p[k]] by {}
}

} // verus!
