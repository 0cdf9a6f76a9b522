use vstd::prelude::*;

verus! {

/// `x_a / w_a > x_b / w_b`, written without division (weights are positive).
pub open spec fn outranks(xa: int, wa: int, xb: int, wb: int) -> bool {
    xa * wb > xb * wa
}

/// Strict total order used for every ranking: higher normalized score first,
/// and among equal scores the earlier position first.
pub open spec fn precedes(xs: Seq<i64>, ws: Seq<u64>, i: int, j: int) -> bool {
    outranks(xs[i] as int, ws[i] as int, xs[j] as int, ws[j] as int) || (!outranks(
        xs[j] as int,
        ws[j] as int,
        xs[i] as int,
        ws[i] as int,
    ) && i < j)
}

/// Scores and weights that can be ranked: as many weights as scores, all positive.
pub open spec fn rankable(xs: Seq<i64>, ws: Seq<u64>) -> bool {
    &&& xs.len() == ws.len()
    &&& forall|i: int| 0 <= i < ws.len() ==> ws[i] > 0
}

/// `sel` lists the `k` best positions of `xs` (or all of them, if fewer), best first:
/// distinct valid positions, in ranking order, each ahead of every position left out.
pub open spec fn is_top_k(xs: Seq<i64>, ws: Seq<u64>, k: int, sel: Seq<usize>) -> bool {
    &&& sel.len() == if k < xs.len() { k } else { xs.len() as int }
    &&& forall|a: int| 0 <= a < sel.len() ==> sel[a] < xs.len()
    &&& forall|a: int, b: int|
        0 <= a < b < sel.len() ==> #[trigger] precedes(xs, ws, sel[a] as int, sel[b] as int)
    &&& forall|a: int, u: int|
        0 <= a < sel.len() && 0 <= u < xs.len() && !sel.contains(u as usize) ==> #[trigger] precedes(
            xs,
            ws,
            sel[a] as int,
            u,
        )
}

proof fn lemma_outranks_chain(xa: int, wa: int, xb: int, wb: int, xc: int, wc: int)
    requires
        wa > 0,
        wb > 0,
        wc > 0,
    ensures
        xa * wb > xb * wa && xb * wc >= xc * wb ==> xa * wc > xc * wa,
        xa * wb >= xb * wa && xb * wc > xc * wb ==> xa * wc > xc * wa,
        xa * wb >= xb * wa && xb * wc >= xc * wb ==> xa * wc >= xc * wa,
{
    assert(xa * wb > xb * wa && xb * wc >= xc * wb ==> xa * wc > xc * wa) by (nonlinear_arith)
        requires
            wa > 0,
            wb > 0,
            wc > 0,
    ;
    assert(xa * wb >= xb * wa && xb * wc > xc * wb ==> xa * wc > xc * wa) by (nonlinear_arith)
        requires
            wa > 0,
            wb > 0,
            wc > 0,
    ;
    assert(xa * wb >= xb * wa && xb * wc >= xc * wb ==> xa * wc >= xc * wa) by (nonlinear_arith)
        requires
            wa > 0,
            wb > 0,
            wc > 0,
    ;
}

/// The ranking order is transitive.
pub proof fn lemma_precedes_transitive(xs: Seq<i64>, ws: Seq<u64>, i: int, j: int, l: int)
    requires
        rankable(xs, ws),
        0 <= i < xs.len(),
        0 <= j < xs.len(),
        0 <= l < xs.len(),
        precedes(xs, ws, i, j),
        precedes(xs, ws, j, l),
    ensures
        precedes(xs, ws, i, l),
{
    lemma_outranks_chain(
        xs[i] as int,
        ws[i] as int,
        xs[j] as int,
        ws[j] as int,
        xs[l] as int,
        ws[l] as int,
    );
    lemma_outranks_chain(
        xs[l] as int,
        ws[l] as int,
        xs[j] as int,
        ws[j] as int,
        xs[i] as int,
        ws[i] as int,
    );
}

/// The ranking order is total and antisymmetric on distinct positions.
pub proof fn lemma_precedes_total(xs: Seq<i64>, ws: Seq<u64>, i: int, j: int)
    requires
        rankable(xs, ws),
        0 <= i < xs.len(),
        0 <= j < xs.len(),
    ensures
        i != j ==> (precedes(xs, ws, i, j) <==> !precedes(xs, ws, j, i)),
        !precedes(xs, ws, i, i),
{
}

/// A ranking has one top-`k` selection only: any two agree position by position.
pub proof fn lemma_top_k_unique(xs: Seq<i64>, ws: Seq<u64>, k: int, s1: Seq<usize>, s2: Seq<usize>)
    requires
        is_top_k(xs, ws, k, s1),
        is_top_k(xs, ws, k, s2),
    ensures
        s1 == s2,
{
    assert forall|a: int| 0 <= a < s1.len() implies s1[a] == s2[a] by {
        lemma_top_k_prefix_agrees(xs, ws, k, s1, s2, a);
    }
    assert(s1 =~= s2);
}

proof fn lemma_top_k_prefix_agrees(
    xs: Seq<i64>,
    ws: Seq<u64>,
    k: int,
    s1: Seq<usize>,
    s2: Seq<usize>,
    a: int,
)
    requires
        is_top_k(xs, ws, k, s1),
        is_top_k(xs, ws, k, s2),
        0 <= a < s1.len(),
    ensures
        forall|b: int| 0 <= b <= a ==> s1[b] == s2[b],
    decreases a,
{
    if a > 0 {
        lemma_top_k_prefix_agrees(xs, ws, k, s1, s2, a - 1);
    }
    let x = s1[a] as int;
    let y = s2[a] as int;
    if x != y {
        lemma_ahead_of(xs, ws, k, s2, s1, a);
        lemma_ahead_of(xs, ws, k, s1, s2, a);
        assert(precedes(xs, ws, y, x));
        assert(precedes(xs, ws, x, y));
    }
}

/// Where two selections agree before position `a` and differ there, the first
/// one's entry at `a` ranks ahead of the second one's.
proof fn lemma_ahead_of(xs: Seq<i64>, ws: Seq<u64>, k: int, s1: Seq<usize>, s2: Seq<usize>, a: int)
    requires
        is_top_k(xs, ws, k, s1),
        is_top_k(xs, ws, k, s2),
        0 <= a < s1.len(),
        forall|b: int| 0 <= b < a ==> s1[b] == s2[b],
        s1[a] != s2[a],
    ensures
        precedes(xs, ws, s1[a] as int, s2[a] as int),
{
    let y = s2[a];
    if s1.contains(y) {
        let q = choose|q: int| 0 <= q < s1.len() && s1[q] == y;
        if q < a {
            assert(s2[q] == y);
            assert(precedes(xs, ws, s2[q] as int, s2[a] as int));
        } else {
            assert(q > a);
            assert(precedes(xs, ws, s1[a] as int, s1[q] as int));
        }
    } else {
        assert(precedes(xs, ws, s1[a] as int, y as int));
    }
}

/// Whether position `i` ranks ahead of position `j`, computed exactly.
fn ranks_ahead(xs: &Vec<i64>, ws: &Vec<u64>, i: usize, j: usize) -> (r: bool)
    requires
        rankable(xs@, ws@),
        i < xs.len(),
        j < xs.len(),
    ensures
        r == precedes(xs@, ws@, i as int, j as int),
{
    let xi = xs[i] as i128;
    let xj = xs[j] as i128;
    let wi = ws[i] as i128;
    let wj = ws[j] as i128;
    assert(-0x8000_0000_0000_0000 * 0xffff_ffff_ffff_ffff <= xi * wj <= 0x7fff_ffff_ffff_ffff
        * 0xffff_ffff_ffff_ffff) by (nonlinear_arith)
        requires
            -0x8000_0000_0000_0000 <= xi <= 0x7fff_ffff_ffff_ffff,
            0 < wj <= 0xffff_ffff_ffff_ffff,
    ;
    assert(-0x8000_0000_0000_0000 * 0xffff_ffff_ffff_ffff <= xj * wi <= 0x7fff_ffff_ffff_ffff
        * 0xffff_ffff_ffff_ffff) by (nonlinear_arith)
        requires
            -0x8000_0000_0000_0000 <= xj <= 0x7fff_ffff_ffff_ffff,
            0 < wi <= 0xffff_ffff_ffff_ffff,
    ;
    let a = xi * wj;
    let b = xj * wi;
    a > b || (a == b && i < j)
}

/// The best position of a non-empty ranking, or of the positions not yet `taken`.
fn best_open(xs: &Vec<i64>, ws: &Vec<u64>, taken: &Vec<bool>) -> (r: usize)
    requires
        rankable(xs@, ws@),
        taken.len() == xs.len(),
        exists|u: int| 0 <= u < taken.len() && !taken[u],
    ensures
        r < xs.len(),
        !taken[r as int],
        forall|u: int|
            0 <= u < xs.len() && u != r && !taken[u] ==> precedes(xs@, ws@, r as int, u),
{
    let n = xs.len();
    let mut best: usize = n;
    let mut i: usize = 0;
    while i < n
        invariant
            rankable(xs@, ws@),
            taken.len() == n,
            n == xs.len(),
            0 <= i <= n,
            best == n || (best < i && !taken[best as int]),
            best == n ==> forall|u: int| 0 <= u < i ==> taken[u],
            best < n ==> forall|u: int|
                0 <= u < i && u != best && !taken[u] ==> precedes(xs@, ws@, best as int, u),
        decreases n - i,
    {
        if !taken[i] {
            if best == n {
                best = i;
            } else if ranks_ahead(xs, ws, i, best) {
                proof {
                    assert forall|u: int|
                        0 <= u < i + 1 && u != i && !taken[u] implies precedes(
                        xs@,
                        ws@,
                        i as int,
                        u,
                    ) by {
                        if u != best {
                            lemma_precedes_transitive(xs@, ws@, i as int, best as int, u);
                        }
                    }
                }
                best = i;
            } else {
                proof {
                    lemma_precedes_total(xs@, ws@, i as int, best as int);
                }
            }
        }
        i = i + 1;
    }
    best
}

/// The `k` best positions of `xs`, best first, where a score `xs[i]` is weighed
/// against the weight `ws[i]` and ties go to the earlier position.
pub fn top_k(xs: &Vec<i64>, ws: &Vec<u64>, k: usize) -> (sel: Vec<usize>)
    requires
        rankable(xs@, ws@),
    ensures
        is_top_k(xs@, ws@, k as int, sel@),
{
    let n = xs.len();
    let m: usize = if k < n { k } else { n };
    let mut taken: Vec<bool> = Vec::new();
    let mut i: usize = 0;
    while i < n
        invariant
            0 <= i <= n,
            taken.len() == i,
            forall|u: int| 0 <= u < i ==> !taken[u],
        decreases n - i,
    {
        taken.push(false);
        i = i + 1;
    }
    let mut sel: Vec<usize> = Vec::new();
    while sel.len() < m
        invariant
            rankable(xs@, ws@),
            n == xs.len(),
            m <= n,
            m == if k < n { k } else { n },
            taken.len() == n,
            sel.len() <= m,
            forall|a: int| 0 <= a < sel.len() ==> sel[a] < n,
            forall|u: int| 0 <= u < n ==> (taken[u] <==> sel@.contains(u as usize)),
            forall|a: int, b: int|
                0 <= a < b < sel.len() ==> #[trigger] precedes(
                    xs@,
                    ws@,
                    sel[a] as int,
                    sel[b] as int,
                ),
            forall|a: int, u: int|
                0 <= a < sel.len() && 0 <= u < n && !sel@.contains(u as usize) ==> #[trigger] precedes(
                    xs@,
                    ws@,
                    sel[a] as int,
                    u,
                ),
        decreases m - sel.len(),
    {
        proof {
            if forall|u: int| 0 <= u < n ==> taken[u] {
                assert forall|u: usize| (u as int) < n implies #[trigger] sel@.contains(u) by {
                    assert(taken[u as int]);
                }
                lemma_covering_len(sel@, n as int);
            }
        }
        let b = best_open(xs, ws, &taken);
        let ghost old_sel = sel@;
        sel.push(b);
        taken.set(b, true);
        proof {
            assert forall|u: int| 0 <= u < n implies (taken[u] <==> sel@.contains(
                u as usize,
            )) by {
                if u == b as int {
                    assert(sel@[old_sel.len() as int] == b);
                } else if old_sel.contains(u as usize) {
                    let p = choose|p: int| 0 <= p < old_sel.len() && old_sel[p] == u as usize;
                    assert(sel@[p] == u as usize);
                } else if sel@.contains(u as usize) {
                    let p = choose|p: int| 0 <= p < sel@.len() && sel@[p] == u as usize;
                    assert(p < old_sel.len());
                    assert(old_sel[p] == u as usize);
                }
            }
            assert forall|a: int, c: int|
                0 <= a < c < sel.len() implies #[trigger] precedes(
                xs@,
                ws@,
                sel[a] as int,
                sel[c] as int,
            ) by {
                if c == old_sel.len() {
                    assert(!old_sel.contains(b));
                    assert(old_sel[a] == sel[a]);
                }
            }
            assert forall|a: int, u: int|
                0 <= a < sel.len() && 0 <= u < n && !sel@.contains(u as usize) implies #[trigger] precedes(
                xs@,
                ws@,
                sel[a] as int,
                u,
            ) by {
                assert(!taken[u]);
                if a < old_sel.len() {
                    assert(old_sel[a] == sel[a]);
                    assert(!old_sel.contains(u as usize)) by {
                        if old_sel.contains(u as usize) {
                            let p = choose|p: int|
                                0 <= p < old_sel.len() && old_sel[p] == u as usize;
                            assert(sel@[p] == u as usize);
                        }
                    }
                }
            }
        }
    }
    sel
}

/// A sequence that holds every position below `n` has at least `n` entries.
proof fn lemma_covering_len(sel: Seq<usize>, n: int)
    requires
        forall|u: usize| (u as int) < n ==> #[trigger] sel.contains(u),
        0 <= n <= usize::MAX,
    ensures
        sel.len() >= n,
{
    let ints = sel.map_values(|u: usize| u as int);
    let full = vstd::set_lib::set_int_range(0, n);
    assert forall|u: int| full.contains(u) implies ints.to_set().contains(u) by {
        assert(sel.contains(u as usize));
        let p = choose|p: int| 0 <= p < sel.len() && sel[p] == u as usize;
        assert(ints[p] == sel[p] as int);
    }
    vstd::set_lib::lemma_int_range(0, n);
    ints.lemma_cardinality_of_set();
    vstd::seq_lib::seq_to_set_is_finite(ints);
    vstd::set_lib::lemma_len_subset(full, ints.to_set());
}

} // verus!
