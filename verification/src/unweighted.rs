use vstd::prelude::*;

verus! {

/// Whether `a` has an entry in the adjacency list `links`.
pub open spec fn is_key(links: Seq<(u64, Vec<u64>)>, a: u64) -> bool {
    exists|i: int| 0 <= i < links.len() && (#[trigger] links[i]).0 == a
}

/// Whether `links` leads from `a` to `b` in one step.
pub open spec fn edge(links: Seq<(u64, Vec<u64>)>, a: u64, b: u64) -> bool {
    exists|i: int| 0 <= i < links.len() && (#[trigger] links[i]).0 == a && links[i].1@.contains(b)
}

pub open spec fn dstep(links: Seq<(u64, Vec<u64>)>, w: Seq<u64>, i: int) -> bool {
    edge(links, w[i], w[i + 1])
}

/// A walk along the links, each step from a node to one it leads to.
pub open spec fn is_dwalk(links: Seq<(u64, Vec<u64>)>, w: Seq<u64>) -> bool {
    w.len() >= 1 && forall|i: int| 0 <= i < w.len() - 1 ==> #[trigger] dstep(links, w, i)
}

/// Whether a walk along the links leads from `a` to `b`.
pub open spec fn reaches(links: Seq<(u64, Vec<u64>)>, a: u64, b: u64) -> bool {
    exists|w: Seq<u64>| is_dwalk(links, w) && w[0] == a && w.last() == b
}

/// Whether every node that a node of `s` leads to is in `s`.
pub open spec fn closed_d(links: Seq<(u64, Vec<u64>)>, s: Seq<u64>) -> bool {
    forall|u: u64, v: u64| #![trigger s.contains(u), edge(links, u, v)] s.contains(u) && edge(links, u, v) ==> s.contains(v)
}

/// Each node has one entry.
pub open spec fn keys_unique(links: Seq<(u64, Vec<u64>)>) -> bool {
    forall|i: int, j: int| 0 <= i < j < links.len() ==> (#[trigger] links[i]).0 != (#[trigger] links[j]).0
}

/// Some component before `k` holds `x`.
pub open spec fn claimed(r: Seq<Seq<u64>>, k: int, x: u64) -> bool {
    exists|j: int| 0 <= j < k && #[trigger] r[j].contains(x)
}

proof fn lemma_reach_one(links: Seq<(u64, Vec<u64>)>, a: u64)
    ensures
        reaches(links, a, a),
{
    let w = seq![a];
    assert(is_dwalk(links, w) && w[0] == a && w.last() == a);
}

proof fn lemma_reach_push(links: Seq<(u64, Vec<u64>)>, a: u64, b: u64, c: u64)
    requires
        reaches(links, a, b),
        edge(links, b, c),
    ensures
        reaches(links, a, c),
{
    let w = choose|w: Seq<u64>| is_dwalk(links, w) && w[0] == a && w.last() == b;
    let w2 = w.push(c);
    assert forall|i: int| 0 <= i < w2.len() - 1 implies #[trigger] dstep(links, w2, i) by {
        if i < w.len() - 1 {
            assert(dstep(links, w, i));
        }
    }
    assert(is_dwalk(links, w2) && w2[0] == a && w2.last() == c);
}

proof fn lemma_closed_dwalk(links: Seq<(u64, Vec<u64>)>, s: Seq<u64>, w: Seq<u64>, k: int)
    requires
        closed_d(links, s),
        is_dwalk(links, w),
        s.contains(w[0]),
        0 <= k < w.len(),
    ensures
        s.contains(w[k]),
    decreases k,
{
    if k > 0 {
        lemma_closed_dwalk(links, s, w, k - 1);
        assert(dstep(links, w, k - 1));
    }
}

proof fn lemma_closed_reaches(links: Seq<(u64, Vec<u64>)>, s: Seq<u64>, x: u64, y: u64)
    requires
        closed_d(links, s),
        s.contains(x),
        reaches(links, x, y),
    ensures
        s.contains(y),
{
    let w = choose|w: Seq<u64>| is_dwalk(links, w) && w[0] == x && w.last() == y;
    lemma_closed_dwalk(links, s, w, w.len() - 1);
}

pub(crate) proof fn lemma_bound(a: Seq<u64>, u: Seq<u64>)
    requires
        a.no_duplicates(),
        forall|x: u64| a.contains(x) ==> u.contains(x),
    ensures
        a.len() <= u.len(),
{
    broadcast use vstd::seq_lib::seq_to_set_is_finite;
    a.unique_seq_to_set();
    u.lemma_cardinality_of_set();
    assert(a.to_set().subset_of(u.to_set()));
    vstd::set_lib::lemma_len_subset(a.to_set(), u.to_set());
}

fn contains_u64(v: &Vec<u64>, x: u64) -> (r: bool)
    ensures
        r == v@.contains(x),
{
    let mut i: usize = 0;
    while i < v.len()
        invariant
            i <= v.len(),
            forall|j: int| 0 <= j < i ==> v@[j] != x,
        decreases v.len() - i,
    {
        if v[i] == x {
            return true;
        }
        i = i + 1;
    }
    false
}

/// Every node named in the first `n` entries of `links`: each key followed by the nodes it
/// leads to.
pub open spec fn nodes_upto(links: Seq<(u64, Vec<u64>)>, n: int) -> Seq<u64>
    decreases n,
{
    if n <= 0 {
        Seq::empty()
    } else {
        nodes_upto(links, n - 1) + seq![links[n - 1].0] + links[n - 1].1@
    }
}

proof fn lemma_in_nodes(links: Seq<(u64, Vec<u64>)>, n: int, i: int, j: int)
    requires
        0 <= i < n <= links.len(),
        0 <= j < links[i].1@.len(),
    ensures
        nodes_upto(links, n).contains(links[i].0),
        nodes_upto(links, n).contains(links[i].1@[j]),
    decreases n,
{
    let pre = nodes_upto(links, n - 1);
    let all = nodes_upto(links, n);
    if i == n - 1 {
        assert(all[pre.len() as int] == links[i].0);
        assert(all[pre.len() + 1 + j] == links[i].1@[j]);
    } else {
        lemma_in_nodes(links, n - 1, i, j);
        let a = choose|a: int| 0 <= a < pre.len() && pre[a] == links[i].0;
        let b = choose|b: int| 0 <= b < pre.len() && pre[b] == links[i].1@[j];
        assert(all[a] == links[i].0);
        assert(all[b] == links[i].1@[j]);
    }
}

proof fn lemma_key_in_nodes(links: Seq<(u64, Vec<u64>)>, n: int, i: int)
    requires
        0 <= i < n <= links.len(),
    ensures
        nodes_upto(links, n).contains(links[i].0),
    decreases n,
{
    let pre = nodes_upto(links, n - 1);
    let all = nodes_upto(links, n);
    if i == n - 1 {
        assert(all[pre.len() as int] == links[i].0);
    } else {
        lemma_key_in_nodes(links, n - 1, i);
        let a = choose|a: int| 0 <= a < pre.len() && pre[a] == links[i].0;
        assert(all[a] == links[i].0);
    }
}

/// `r` is the nodes reached from each key of `links` in turn, each component the nodes that
/// walks reach from its first node and no earlier component holds; every key is in one.
pub open spec fn components_d(links: Seq<(u64, Vec<u64>)>, r: Seq<Seq<u64>>) -> bool {
    &&& forall|k: int| 0 <= k < r.len() ==> (#[trigger] r[k]).len() > 0 && r[k].no_duplicates() && is_key(links, r[k][0])
    &&& forall|k: int, x: u64|
        0 <= k < r.len() ==> (#[trigger] r[k].contains(x) <==> reaches(links, r[k][0], x) && !claimed(r, k, x))
    &&& forall|x: u64| is_key(links, x) ==> claimed(r, r.len() as int, x)
}

pub open spec fn comp_views(r: Seq<Vec<u64>>) -> Seq<Seq<u64>> {
    r.map_values(|v: Vec<u64>| v@)
}

/// Splits the nodes reached along `links` into components, taking the keys in order: each
/// key not yet reached starts a component holding every node a walk from it reaches that no
/// earlier component holds.
pub fn find_components(links: &Vec<(u64, Vec<u64>)>) -> (r: Vec<Vec<u64>>)
    requires
        keys_unique(links@),
    ensures
        components_d(links@, comp_views(r@)),
{
    let ghost ls = links@;
    let ghost u = nodes_upto(ls, ls.len() as int);
    let mut already: Vec<u64> = Vec::new();
    let mut acc: Vec<Vec<u64>> = Vec::new();
    let mut ti: usize = 0;
    while ti < links.len()
        invariant
            ti <= links@.len(),
            ls == links@,
            u == nodes_upto(ls, ls.len() as int),
            already@.no_duplicates(),
            closed_d(ls, already@),
            forall|x: u64| already@.contains(x) ==> u.contains(x),
            forall|x: u64| #[trigger] already@.contains(x) <==> claimed(comp_views(acc@), acc@.len() as int, x),
            forall|j: int| 0 <= j < ti ==> already@.contains((#[trigger] ls[j]).0),
            forall|k: int| 0 <= k < acc@.len() ==> (#[trigger] comp_views(acc@)[k]).len() > 0 && comp_views(acc@)[k].no_duplicates() && is_key(ls, comp_views(acc@)[k][0]),
            forall|k: int, x: u64|
                0 <= k < acc@.len() ==> (#[trigger] comp_views(acc@)[k].contains(x) <==> reaches(ls, comp_views(acc@)[k][0], x) && !claimed(comp_views(acc@), k, x)),
        decreases links@.len() - ti,
    {
        let t0 = links[ti].0;
        if contains_u64(&already, t0) {
            ti = ti + 1;
            continue;
        }
        let ghost old_already = already@;
        let ghost rv0 = comp_views(acc@);
        proof {
            lemma_key_in_nodes(ls, ls.len() as int, ti as int);
            lemma_reach_one(ls, t0);
        }
        let mut comp: Vec<u64> = Vec::new();
        let mut q: Vec<u64> = Vec::new();
        q.push(t0);
        loop
            invariant
                ls == links@,
                u == nodes_upto(ls, ls.len() as int),
                !old_already.contains(t0),
                is_key(ls, t0),
                closed_d(ls, old_already),
                forall|x: u64| old_already.contains(x) ==> u.contains(x),
                already@.no_duplicates(),
                forall|x: u64| #[trigger] already@.contains(x) <==> old_already.contains(x) || comp@.contains(x),
                forall|x: u64| !(old_already.contains(x) && comp@.contains(x)),
                comp@.no_duplicates(),
                forall|x: u64| already@.contains(x) ==> u.contains(x),
                forall|x: u64| q@.contains(x) ==> u.contains(x),
                forall|x: u64| q@.contains(x) ==> reaches(ls, t0, x),
                forall|x: u64| comp@.contains(x) ==> reaches(ls, t0, x),
                comp@.len() == 0 ==> q@ == seq![t0],
                comp@.len() > 0 ==> comp@[0] == t0,
                forall|a: u64, b: u64| #![trigger already@.contains(a), edge(ls, a, b)]
                    already@.contains(a) && edge(ls, a, b) ==> already@.contains(b) || q@.contains(b),
            ensures
                q@.len() == 0,
                comp@.len() > 0,
            decreases u.len() - already@.len(), q@.len(),
        {
            proof {
                lemma_bound(already@, u);
            }
            let ghost q_before = q@;
            let t = match q.pop() {
                Some(t) => t,
                None => {
                    assert(comp@.len() > 0);
                    break;
                },
            };
            assert(q_before =~= q@.push(t));
            assert(q_before[q@.len() as int] == t);
            assert forall|x: u64| q_before.contains(x) && x != t implies q@.contains(x) by {
                let j = choose|j: int| 0 <= j < q_before.len() && q_before[j] == x;
                assert(q@[j] == x);
            }
            assert forall|x: u64| q@.contains(x) implies q_before.contains(x) by {
                let j = choose|j: int| 0 <= j < q@.len() && q@[j] == x;
                assert(q_before[j] == x);
            }
            if contains_u64(&already, t) {
                assert forall|a: u64, b: u64| #![trigger already@.contains(a), edge(ls, a, b)]
                    already@.contains(a) && edge(ls, a, b) implies already@.contains(b) || q@.contains(b) by {
                    if !already@.contains(b) {
                        assert(q_before.contains(b));
                    }
                }
                assert(comp@.len() > 0) by {
                    if comp@.len() == 0 {
                        assert(t == t0);
                        assert(!old_already.contains(t0));
                    }
                }
                continue;
            }
            assert(q_before.contains(t));
            let ghost prev_a = already@;
            let ghost prev_c = comp@;
            already.push(t);
            comp.push(t);
            assert(already@ =~= prev_a.push(t));
            assert(comp@ =~= prev_c.push(t));
            assert(already@[prev_a.len() as int] == t);
            assert(comp@[prev_c.len() as int] == t);
            assert forall|x: u64| #[trigger] already@.contains(x) <==> prev_a.contains(x) || x == t by {
                if already@.contains(x) {
                    let j = choose|j: int| 0 <= j < already@.len() && already@[j] == x;
                    if j < prev_a.len() {
                        assert(prev_a[j] == x);
                    }
                }
                if prev_a.contains(x) {
                    let j = choose|j: int| 0 <= j < prev_a.len() && prev_a[j] == x;
                    assert(already@[j] == x);
                }
            }
            assert forall|x: u64| #[trigger] comp@.contains(x) <==> prev_c.contains(x) || x == t by {
                if comp@.contains(x) {
                    let j = choose|j: int| 0 <= j < comp@.len() && comp@[j] == x;
                    if j < prev_c.len() {
                        assert(prev_c[j] == x);
                    }
                }
                if prev_c.contains(x) {
                    let j = choose|j: int| 0 <= j < prev_c.len() && prev_c[j] == x;
                    assert(comp@[j] == x);
                }
            }
            assert(prev_c.len() == 0 ==> t == t0);
            let ghost q_mid = q@;
            let mut ei: usize = 0;
            while ei < links.len()
                invariant
                    ei <= links@.len(),
                    ls == links@,
                    u == nodes_upto(ls, ls.len() as int),
                    reaches(ls, t0, t),
                    forall|x: u64| q_mid.contains(x) ==> q@.contains(x),
                    forall|x: u64| q@.contains(x) ==> u.contains(x),
                    forall|x: u64| q@.contains(x) ==> reaches(ls, t0, x),
                    forall|b: u64| (exists|e: int| 0 <= e < ei && (#[trigger] ls[e]).0 == t && ls[e].1@.contains(b)) ==> q@.contains(b),
                decreases links@.len() - ei,
            {
                if links[ei].0 == t {
                    let succs = &links[ei].1;
                    let ghost q_e = q@;
                    let mut si: usize = 0;
                    while si < succs.len()
                        invariant
                            ei < links@.len(),
                            ls == links@,
                            u == nodes_upto(ls, ls.len() as int),
                            succs@ == ls[ei as int].1@,
                            ls[ei as int].0 == t,
                            reaches(ls, t0, t),
                            si <= succs@.len(),
                            forall|x: u64| q_e.contains(x) ==> q@.contains(x),
                            forall|x: u64| q@.contains(x) ==> u.contains(x),
                            forall|x: u64| q@.contains(x) ==> reaches(ls, t0, x),
                            forall|j: int| 0 <= j < si ==> q@.contains(#[trigger] succs@[j]),
                        decreases succs@.len() - si,
                    {
                        let b = succs[si];
                        proof {
                            lemma_in_nodes(ls, ls.len() as int, ei as int, si as int);
                            assert(edge(ls, t, b));
                            lemma_reach_push(ls, t0, t, b);
                        }
                        let ghost prev = q@;
                        q.push(b);
                        assert(q@ =~= prev.push(b));
                        assert(q@[prev.len() as int] == b);
                        assert forall|x: u64| prev.contains(x) implies q@.contains(x) by {
                            let j = choose|j: int| 0 <= j < prev.len() && prev[j] == x;
                            assert(q@[j] == x);
                        }
                        si = si + 1;
                    }
                    assert forall|b: u64| (exists|e: int| 0 <= e < ei + 1 && (#[trigger] ls[e]).0 == t && ls[e].1@.contains(b)) implies q@.contains(b) by {
                        let e = choose|e: int| 0 <= e < ei + 1 && (#[trigger] ls[e]).0 == t && ls[e].1@.contains(b);
                        if e == ei {
                            let j = choose|j: int| 0 <= j < succs@.len() && succs@[j] == b;
                        } else {
                            assert(q_e.contains(b));
                        }
                    }
                } else {
                    assert forall|b: u64| (exists|e: int| 0 <= e < ei + 1 && (#[trigger] ls[e]).0 == t && ls[e].1@.contains(b)) implies q@.contains(b) by {
                        let e = choose|e: int| 0 <= e < ei + 1 && (#[trigger] ls[e]).0 == t && ls[e].1@.contains(b);
                    }
                }
                ei = ei + 1;
            }
            proof {
                lemma_bound(already@, u);
            }
            assert forall|a: u64, b: u64| #![trigger already@.contains(a), edge(ls, a, b)]
                already@.contains(a) && edge(ls, a, b) implies already@.contains(b) || q@.contains(b) by {
                if a == t {
                    let e = choose|e: int| 0 <= e < ls.len() && (#[trigger] ls[e]).0 == a && ls[e].1@.contains(b);
                } else {
                    assert(prev_a.contains(a));
                    if !already@.contains(b) {
                        assert(q_before.contains(b));
                        assert(q_mid.contains(b));
                    }
                }
            }
        }
        assert forall|a: u64, b: u64| #![trigger already@.contains(a), edge(ls, a, b)]
            already@.contains(a) && edge(ls, a, b) implies already@.contains(b) by {
            assert(!q@.contains(b));
        }
        let ghost cv = comp@;
        let ghost k = acc@.len() as int;
        acc.push(comp);
        let ghost rv = comp_views(acc@);
        assert(rv =~= rv0.push(cv));
        assert forall|x: u64| #[trigger] already@.contains(x) <==> claimed(rv, rv.len() as int, x) by {
            if claimed(rv, rv.len() as int, x) {
                let j = choose|j: int| 0 <= j < rv.len() && #[trigger] rv[j].contains(x);
                if j < k {
                    assert(rv0[j].contains(x));
                    assert(claimed(rv0, k, x));
                }
            }
            if already@.contains(x) {
                if old_already.contains(x) {
                    assert(claimed(rv0, k, x));
                    let j = choose|j: int| 0 <= j < k && #[trigger] rv0[j].contains(x);
                    assert(rv[j] == rv0[j]);
                } else {
                    assert(rv[k].contains(x));
                }
            }
        }
        assert forall|kk: int, x: u64|
            0 <= kk < rv.len() implies (#[trigger] rv[kk].contains(x) <==> reaches(ls, rv[kk][0], x) && !claimed(rv, kk, x)) by {
            if kk < k {
                assert(rv[kk] == rv0[kk]);
                assert(claimed(rv, kk, x) == claimed(rv0, kk, x)) by {
                    if claimed(rv, kk, x) {
                        let j = choose|j: int| 0 <= j < kk && #[trigger] rv[j].contains(x);
                        assert(rv[j] == rv0[j]);
                    }
                    if claimed(rv0, kk, x) {
                        let j = choose|j: int| 0 <= j < kk && #[trigger] rv0[j].contains(x);
                        assert(rv[j] == rv0[j]);
                    }
                }
            } else {
                assert(rv[kk] == cv);
                assert(claimed(rv, kk, x) == old_already.contains(x)) by {
                    if claimed(rv, kk, x) {
                        let j = choose|j: int| 0 <= j < kk && #[trigger] rv[j].contains(x);
                        assert(rv[j] == rv0[j]);
                        assert(claimed(rv0, k, x));
                    }
                    if old_already.contains(x) {
                        assert(claimed(rv0, k, x));
                        let j = choose|j: int| 0 <= j < k && #[trigger] rv0[j].contains(x);
                        assert(rv[j] == rv0[j]);
                    }
                }
                if reaches(ls, t0, x) && !old_already.contains(x) {
                    lemma_closed_reaches(ls, already@, t0, x);
                }
            }
        }
        assert forall|kk: int| 0 <= kk < rv.len() implies (#[trigger] rv[kk]).len() > 0 && rv[kk].no_duplicates() && is_key(ls, rv[kk][0]) by {
            if kk < k {
                assert(rv[kk] == rv0[kk]);
            }
        }
        assert forall|j: int| 0 <= j < ti + 1 implies already@.contains((#[trigger] ls[j]).0) by {
            if j < ti {
                assert(old_already.contains(ls[j].0));
            }
        }
        ti = ti + 1;
    }
    assert forall|x: u64| is_key(ls, x) implies claimed(comp_views(acc@), acc@.len() as int, x) by {
        let i = choose|i: int| 0 <= i < ls.len() && (#[trigger] ls[i]).0 == x;
        assert(already@.contains(ls[i].0));
    }
    acc
}

} // verus!
