use vstd::prelude::*;
use crate::zmodule::{ZModule, addmul_ok, axpy, fits, in_isize, zeros};

verus! {

/// Whether `a` has an entry in the weighted adjacency list `links`.
pub open spec fn wkey<R>(links: Seq<(u64, Vec<(u64, R)>)>, a: u64) -> bool {
    exists|i: int| 0 <= i < links.len() && (#[trigger] links[i]).0 == a
}

/// Each node has one entry.
pub open spec fn wkeys_unique<R>(links: Seq<(u64, Vec<(u64, R)>)>) -> bool {
    forall|i: int, j: int| 0 <= i < j < links.len() ==> (#[trigger] links[i]).0 != (#[trigger] links[j]).0
}

/// Whether `links` leads from `a` to `b` by a link of weight `c`.
pub open spec fn wedge<R: ZModule>(links: Seq<(u64, Vec<(u64, R)>)>, a: u64, b: u64, c: Seq<int>) -> bool {
    exists|i: int, j: int|
        0 <= i < links.len() && 0 <= j < links[i].1@.len() && links[i].0 == a && (#[trigger] links[i].1@[j]).0 == b
            && links[i].1@[j].1.coords() == c
}

/// Whether `links` leads from `a` to `b` by some link.
pub open spec fn wlinked<R>(links: Seq<(u64, Vec<(u64, R)>)>, a: u64, b: u64) -> bool {
    exists|i: int, j: int|
        0 <= i < links.len() && 0 <= j < links[i].1@.len() && links[i].0 == a && (#[trigger] links[i].1@[j]).0 == b
}

pub open spec fn wstep<R: ZModule>(links: Seq<(u64, Vec<(u64, R)>)>, ns: Seq<u64>, cs: Seq<Seq<int>>, i: int) -> bool {
    wedge(links, ns[i], ns[i + 1], cs[i])
}

/// A walk through the nodes `ns`, taking the link of weight `cs[i]` from `ns[i]` to
/// `ns[i + 1]`.
pub open spec fn is_wwalk<R: ZModule>(links: Seq<(u64, Vec<(u64, R)>)>, ns: Seq<u64>, cs: Seq<Seq<int>>) -> bool {
    &&& ns.len() == cs.len() + 1
    &&& forall|i: int| 0 <= i < cs.len() ==> #[trigger] wstep(links, ns, cs, i)
}

/// The sum of the weights `cs`, vectors of `d` coordinates.
pub open spec fn walk_weight(cs: Seq<Seq<int>>, d: nat) -> Seq<int>
    decreases cs.len(),
{
    if cs.len() == 0 {
        zeros(d)
    } else {
        axpy(walk_weight(cs.drop_last(), d), 1, cs.last())
    }
}

/// Whether a walk along the links leads from `a` to `b`.
pub open spec fn wreaches<R: ZModule>(links: Seq<(u64, Vec<(u64, R)>)>, a: u64, b: u64) -> bool {
    exists|ns: Seq<u64>, cs: Seq<Seq<int>>| #[trigger] is_wwalk(links, ns, cs) && ns[0] == a && ns.last() == b
}

/// Whether some walk from `n` to `x` that visits no node twice weighs `w`.
pub open spec fn weighed<R: ZModule>(links: Seq<(u64, Vec<(u64, R)>)>, n: u64, x: u64, w: Seq<int>) -> bool {
    exists|ns: Seq<u64>, cs: Seq<Seq<int>>|
        #[trigger] is_wwalk(links, ns, cs) && ns[0] == n && ns.last() == x && ns.no_duplicates()
            && walk_weight(cs, R::dim()) == w
}

/// Whether every walk from `n` that visits no node twice, followed by one more link, has a
/// weight that fits in `isize` coordinates.
pub open spec fn paths_fit<R: ZModule>(links: Seq<(u64, Vec<(u64, R)>)>, n: u64) -> bool {
    forall|ns: Seq<u64>, cs: Seq<Seq<int>>|
        #[trigger] is_wwalk(links, ns, cs) && ns[0] == n && ns.drop_last().no_duplicates() ==> fits(
            walk_weight(cs, R::dim()),
        )
}

/// Whether every node that a walk from `n` reaches has an entry.
pub open spec fn reached_keyed<R: ZModule>(links: Seq<(u64, Vec<(u64, R)>)>, n: u64) -> bool {
    forall|x: u64| #[trigger] wreaches(links, n, x) ==> wkey(links, x)
}

/// Whether `r` has an entry for `x`.
pub open spec fn has_key<R>(r: Seq<(u64, R)>, x: u64) -> bool {
    exists|k: int| 0 <= k < r.len() && (#[trigger] r[k]).0 == x
}

/// `r` holds each node that walks from `n` reach once, `n` first with weight zero, each with
/// the weight of some walk from `n` to it that visits no node twice.
/// `w` is the weight of some entry of `r` plus that of a link from its node to `x`.
pub open spec fn from_parent<R: ZModule>(links: Seq<(u64, Vec<(u64, R)>)>, r: Seq<(u64, R)>, x: u64, w: Seq<int>) -> bool {
    exists|k: int, c: Seq<int>|
        0 <= k < r.len() && #[trigger] wedge(links, r[k].0, x, c) && w == axpy(r[k].1.coords(), 1, c)
}

proof fn lemma_from_parent_grow<R: ZModule>(
    links: Seq<(u64, Vec<(u64, R)>)>,
    r: Seq<(u64, R)>,
    e: (u64, R),
    x: u64,
    w: Seq<int>,
)
    requires
        from_parent(links, r, x, w),
    ensures
        from_parent(links, r.push(e), x, w),
{
    let (k, c) = choose|k: int, c: Seq<int>|
        0 <= k < r.len() && #[trigger] wedge(links, r[k].0, x, c) && w == axpy(r[k].1.coords(), 1, c);
    assert(r.push(e)[k] == r[k]);
    assert(wedge(links, r.push(e)[k].0, x, c));
}

pub open spec fn connected_weights<R: ZModule>(links: Seq<(u64, Vec<(u64, R)>)>, n: u64, r: Seq<(u64, R)>) -> bool {
    &&& r.len() > 0
    &&& r[0].0 == n
    &&& r[0].1.coords() == zeros(R::dim())
    &&& forall|i: int, j: int| 0 <= i < j < r.len() ==> (#[trigger] r[i]).0 != (#[trigger] r[j]).0
    &&& forall|x: u64| #[trigger] has_key(r, x) <==> wreaches(links, n, x)
    &&& forall|k: int| 0 <= k < r.len() ==> weighed(links, n, (#[trigger] r[k]).0, r[k].1.coords())
    &&& forall|k: int| 1 <= k < r.len() ==> from_parent(links, r, (#[trigger] r[k]).0, r[k].1.coords())
}

/// A node waiting to be visited with weight `w`: some walk from `n` to `x` weighs `w`, and
/// the nodes before `x` on it are distinct and all in `seen`.
pub open spec fn pending<R: ZModule>(links: Seq<(u64, Vec<(u64, R)>)>, n: u64, seen: Set<u64>, x: u64, w: Seq<int>) -> bool {
    exists|ns: Seq<u64>, cs: Seq<Seq<int>>|
        #[trigger] is_wwalk(links, ns, cs) && ns[0] == n && ns.last() == x && ns.drop_last().no_duplicates()
            && (forall|m: int| 0 <= m < ns.len() - 1 ==> seen.contains(#[trigger] ns[m]))
            && walk_weight(cs, R::dim()) == w
}

proof fn lemma_walk_push<R: ZModule>(links: Seq<(u64, Vec<(u64, R)>)>, ns: Seq<u64>, cs: Seq<Seq<int>>, b: u64, c: Seq<int>)
    requires
        is_wwalk(links, ns, cs),
        wedge(links, ns.last(), b, c),
    ensures
        is_wwalk(links, ns.push(b), cs.push(c)),
        walk_weight(cs.push(c), R::dim()) == axpy(walk_weight(cs, R::dim()), 1, c),
        ns.push(b).drop_last() == ns,
{
    let ns2 = ns.push(b);
    let cs2 = cs.push(c);
    assert forall|i: int| 0 <= i < cs2.len() implies #[trigger] wstep(links, ns2, cs2, i) by {
        if i < cs.len() {
            assert(wstep(links, ns, cs, i));
        }
    }
    assert(cs2.drop_last() =~= cs);
    assert(ns2.drop_last() =~= ns);
}

proof fn lemma_pending_grow<R: ZModule>(links: Seq<(u64, Vec<(u64, R)>)>, n: u64, s1: Set<u64>, s2: Set<u64>, x: u64, w: Seq<int>)
    requires
        pending(links, n, s1, x, w),
        s1.subset_of(s2),
    ensures
        pending(links, n, s2, x, w),
{
    let (ns, cs) = choose|ns: Seq<u64>, cs: Seq<Seq<int>>|
        #[trigger] is_wwalk(links, ns, cs) && ns[0] == n && ns.last() == x && ns.drop_last().no_duplicates()
            && (forall|m: int| 0 <= m < ns.len() - 1 ==> s1.contains(#[trigger] ns[m]))
            && walk_weight(cs, R::dim()) == w;
    assert(forall|m: int| 0 <= m < ns.len() - 1 ==> s2.contains(#[trigger] ns[m]));
}

proof fn lemma_walk_one<R: ZModule>(links: Seq<(u64, Vec<(u64, R)>)>, n: u64)
    ensures
        is_wwalk(links, seq![n], Seq::<Seq<int>>::empty()),
        wreaches(links, n, n),
        walk_weight(Seq::<Seq<int>>::empty(), R::dim()) == zeros(R::dim()),
{
    assert(is_wwalk(links, seq![n], Seq::<Seq<int>>::empty()));
}

proof fn lemma_closed_walk<R: ZModule>(links: Seq<(u64, Vec<(u64, R)>)>, seen: Set<u64>, ns: Seq<u64>, cs: Seq<Seq<int>>, k: int)
    requires
        forall|a: u64, b: u64| #![trigger seen.contains(a), wlinked(links, a, b)] seen.contains(a) && wlinked(links, a, b) ==> seen.contains(b),
        is_wwalk(links, ns, cs),
        seen.contains(ns[0]),
        0 <= k < ns.len(),
    ensures
        seen.contains(ns[k]),
    decreases k,
{
    if k > 0 {
        lemma_closed_walk(links, seen, ns, cs, k - 1);
        assert(wstep(links, ns, cs, k - 1));
        let (i, j) = choose|i: int, j: int|
            0 <= i < links.len() && 0 <= j < links[i].1@.len() && links[i].0 == ns[k - 1] && (#[trigger] links[i].1@[j]).0 == ns[k]
                && links[i].1@[j].1.coords() == cs[k - 1];
        assert(wlinked(links, ns[k - 1], ns[k]));
    }
}

fn key_index<R>(r: &Vec<(u64, R)>, x: u64) -> (k: Option<usize>)
    ensures
        k is Some ==> k.unwrap() < r@.len() && r@[k.unwrap() as int].0 == x,
        k is None ==> !has_key(r@, x),
{
    let mut i: usize = 0;
    while i < r.len()
        invariant
            i <= r@.len(),
            forall|j: int| 0 <= j < i ==> (#[trigger] r@[j]).0 != x,
        decreases r@.len() - i,
    {
        if r[i].0 == x {
            return Some(i);
        }
        i = i + 1;
    }
    None
}

fn entry_of<R>(links: &Vec<(u64, Vec<(u64, R)>)>, x: u64) -> (i: usize)
    requires
        wkey(links@, x),
    ensures
        i < links@.len(),
        links@[i as int].0 == x,
{
    let mut i: usize = 0;
    while i < links.len()
        invariant
            i <= links@.len(),
            wkey(links@, x),
            forall|j: int| 0 <= j < i ==> (#[trigger] links@[j]).0 != x,
        decreases links@.len() - i,
    {
        if links[i].0 == x {
            return i;
        }
        i = i + 1;
    }
    i
}

/// A fresh value with the coordinates of `w`.
fn copy_of<R: ZModule>(w: &R) -> (r: R)
    ensures
        r.coords() == w.coords(),
{
    let mut r = R::zero();
    proof {
        w.lemma_coords();
        assert forall|i: int| 0 <= i < zeros(R::dim()).len() implies in_isize(#[trigger] (1 * w.coords()[i])) && in_isize(
            zeros(R::dim())[i] + 1 * w.coords()[i],
        ) by {
            assert(in_isize(w.coords()[i]));
        }
    }
    r.addmul(1, w);
    assert(r.coords() =~= w.coords());
    r
}

/// Finds the nodes that walks from `n` reach along `links`, each with the weight of some walk
/// from `n` to it; `n` comes first, with weight zero.
pub fn find_connected_weights<R: ZModule + Clone>(links: &Vec<(u64, Vec<(u64, R)>)>, n: u64) -> (r: Vec<(u64, R)>)
    requires
        wkeys_unique(links@),
        reached_keyed(links@, n),
        paths_fit(links@, n),
    ensures
        connected_weights(links@, n, r@),
{
    let ghost ls = links@;
    let ghost d = R::dim();
    let mut acc: Vec<(u64, R)> = Vec::new();
    let mut stack: Vec<(u64, R)> = Vec::new();
    let z = R::zero();
    proof {
        lemma_walk_one(ls, n);
        assert(seq![n].drop_last() =~= Seq::<u64>::empty());
        assert(pending(ls, n, Set::empty(), n, z.coords()) ) by {
            assert(is_wwalk(ls, seq![n], Seq::<Seq<int>>::empty()));
        }
    }
    stack.push((n, z));
    let ghost mut seen: Set<u64> = Set::empty();
    while stack.len() > 0
        invariant
            ls == links@,
            d == R::dim(),
            wkeys_unique(ls),
            reached_keyed(ls, n),
            paths_fit(ls, n),
            forall|x: u64| #[trigger] seen.contains(x) <==> has_key(acc@, x),
            forall|i: int, j: int| 0 <= i < j < acc@.len() ==> (#[trigger] acc@[i]).0 != (#[trigger] acc@[j]).0,
            forall|k: int| 0 <= k < acc@.len() ==> weighed(ls, n, (#[trigger] acc@[k]).0, acc@[k].1.coords()),
            forall|k: int| 0 <= k < acc@.len() ==> wreaches(ls, n, (#[trigger] acc@[k]).0),
            forall|s: int| 0 <= s < stack@.len() ==> pending(ls, n, seen, (#[trigger] stack@[s]).0, stack@[s].1.coords()),
            forall|a: u64, b: u64| #![trigger seen.contains(a), wlinked(ls, a, b)]
                seen.contains(a) && wlinked(ls, a, b) ==> seen.contains(b) || has_key(stack@, b),
            acc@.len() == 0 ==> stack@.len() == 1 && stack@[0].0 == n && stack@[0].1.coords() == zeros(d),
            acc@.len() > 0 ==> acc@[0].0 == n && acc@[0].1.coords() == zeros(d),
            forall|k: int| 1 <= k < acc@.len() ==> from_parent(ls, acc@, (#[trigger] acc@[k]).0, acc@[k].1.coords()),
            forall|s: int|
                0 <= s < stack@.len() ==> (#[trigger] stack@[s]).0 == n || from_parent(ls, acc@, stack@[s].0, stack@[s].1.coords()),
        decreases ls.len() + 1 - acc@.len(), stack@.len(),
    {
        proof {
            let keys = acc@.map_values(|e: (u64, R)| e.0);
            let all = ls.map_values(|e: (u64, Vec<(u64, R)>)| e.0);
            assert forall|i: int, j: int| 0 <= i < keys.len() && 0 <= j < keys.len() && i != j implies keys[i] != keys[j] by {
                if i < j {
                    assert(acc@[i].0 != acc@[j].0);
                } else {
                    assert(acc@[j].0 != acc@[i].0);
                }
            }
            assert forall|x: u64| keys.contains(x) implies all.contains(x) by {
                let k = choose|k: int| 0 <= k < keys.len() && keys[k] == x;
                assert(wreaches(ls, n, acc@[k].0));
                let i = choose|i: int| 0 <= i < ls.len() && (#[trigger] ls[i]).0 == x;
                assert(all[i] == x);
            }
            crate::unweighted::lemma_bound(keys, all);
        }
        let ghost st0 = stack@;
        let e = stack.pop().unwrap();
        let (t, w) = e;
        assert(st0 =~= stack@.push((t, w)));
        assert(pending(ls, n, seen, t, w.coords())) by {
            assert(st0[st0.len() - 1] == (t, w));
        }
        assert forall|s: int| 0 <= s < stack@.len() implies pending(ls, n, seen, (#[trigger] stack@[s]).0, stack@[s].1.coords()) by {
            assert(st0[s] == stack@[s]);
        }
        assert forall|s: int| 0 <= s < stack@.len() implies (#[trigger] stack@[s]).0 == n || from_parent(
            ls,
            acc@,
            stack@[s].0,
            stack@[s].1.coords(),
        ) by {
            assert(st0[s] == stack@[s]);
        }
        assert(t == n || from_parent(ls, acc@, t, w.coords())) by {
            assert(st0[st0.len() - 1] == (t, w));
        }
        assert forall|b: u64| #[trigger] has_key(st0, b) && b != t implies has_key(stack@, b) by {
            let s = choose|s: int| 0 <= s < st0.len() && (#[trigger] st0[s]).0 == b;
            assert(stack@[s] == st0[s]);
        }
        match key_index(&acc, t) {
            Some(_) => {
                assert forall|a: u64, b: u64| #![trigger seen.contains(a), wlinked(ls, a, b)]
                    seen.contains(a) && wlinked(ls, a, b) implies seen.contains(b) || has_key(stack@, b) by {
                    if !seen.contains(b) && b == t {
                        assert(has_key(acc@, t));
                    }
                }
            },
            None => {
                let ghost (ns, cs) = choose|ns: Seq<u64>, cs: Seq<Seq<int>>|
                    #[trigger] is_wwalk(ls, ns, cs) && ns[0] == n && ns.last() == t && ns.drop_last().no_duplicates()
                        && (forall|m: int| 0 <= m < ns.len() - 1 ==> seen.contains(#[trigger] ns[m]))
                        && walk_weight(cs, d) == w.coords();
                assert(ns =~= ns.drop_last().push(t));
                assert(ns.no_duplicates()) by {
                    assert forall|i: int, j: int| 0 <= i < ns.len() && 0 <= j < ns.len() && i != j implies ns[i] != ns[j] by {
                        if i < ns.len() - 1 && j < ns.len() - 1 {
                            assert(ns.drop_last()[i] == ns[i] && ns.drop_last()[j] == ns[j]);
                        } else if i < ns.len() - 1 {
                            assert(seen.contains(ns[i]));
                        } else {
                            assert(seen.contains(ns[j]));
                        }
                    }
                }
                assert(wreaches(ls, n, t));
                assert(weighed(ls, n, t, w.coords()));
                let ghost old_seen = seen;
                let ghost acc0 = acc@;
                proof {
                    seen = seen.insert(t);
                }
                acc.push((t, w));
                assert(acc@ =~= acc0.push((t, w)));
                let last = acc.len() - 1;
                assert(acc0.len() > 0 ==> t != n) by {
                    if acc0.len() > 0 && t == n {
                        assert(acc0[0].0 == n);
                        assert(has_key(acc0, n));
                    }
                }
                assert forall|k: int| 1 <= k < acc@.len() implies from_parent(
                    ls,
                    acc@,
                    (#[trigger] acc@[k]).0,
                    acc@[k].1.coords(),
                ) by {
                    if k < acc0.len() {
                        assert(acc@[k] == acc0[k]);
                        lemma_from_parent_grow(ls, acc0, (t, w), acc0[k].0, acc0[k].1.coords());
                    } else {
                        lemma_from_parent_grow(ls, acc0, (t, w), t, w.coords());
                    }
                }
                assert forall|s: int| 0 <= s < stack@.len() implies (#[trigger] stack@[s]).0 == n || from_parent(
                    ls,
                    acc@,
                    stack@[s].0,
                    stack@[s].1.coords(),
                ) by {
                    if stack@[s].0 != n {
                        lemma_from_parent_grow(ls, acc0, (t, w), stack@[s].0, stack@[s].1.coords());
                    }
                }
                assert forall|x: u64| #[trigger] seen.contains(x) <==> has_key(acc@, x) by {
                    if has_key(acc@, x) {
                        let k = choose|k: int| 0 <= k < acc@.len() && (#[trigger] acc@[k]).0 == x;
                        if k < acc0.len() {
                            assert(acc0[k].0 == x);
                            assert(has_key(acc0, x));
                        }
                    }
                    if old_seen.contains(x) {
                        let k = choose|k: int| 0 <= k < acc0.len() && (#[trigger] acc0[k]).0 == x;
                        assert(acc@[k].0 == x);
                    }
                    if x == t {
                        assert(acc@[last as int].0 == x);
                    }
                }
                assert forall|s: int| 0 <= s < stack@.len() implies pending(ls, n, seen, (#[trigger] stack@[s]).0, stack@[s].1.coords()) by {
                    lemma_pending_grow(ls, n, old_seen, seen, stack@[s].0, stack@[s].1.coords());
                }
                assert(forall|m: int| 0 <= m < ns.len() ==> seen.contains(#[trigger] ns[m]));
                let ei = entry_of(links, t);
                let succs = &links[ei].1;
                let ghost stk1 = stack@;
                let mut j: usize = 0;
                while j < succs.len()
                    invariant
                        ls == links@,
                        d == R::dim(),
                        wkeys_unique(ls),
                        paths_fit(ls, n),
                        ei < ls.len(),
                        ls[ei as int].0 == t,
                        succs@ == ls[ei as int].1@,
                        last < acc@.len(),
                        acc@[last as int].1 == w,
                        is_wwalk(ls, ns, cs),
                        ns[0] == n,
                        ns.last() == t,
                        ns.no_duplicates(),
                        walk_weight(cs, d) == w.coords(),
                        forall|m: int| 0 <= m < ns.len() ==> seen.contains(#[trigger] ns[m]),
                        j <= succs@.len(),
                        stack@.len() == stk1.len() + j,
                        forall|s: int| 0 <= s < stk1.len() ==> stack@[s] == stk1[s],
                        forall|s: int| 0 <= s < stack@.len() ==> pending(ls, n, seen, (#[trigger] stack@[s]).0, stack@[s].1.coords()),
                        forall|jj: int| 0 <= jj < j ==> stack@[stk1.len() + jj].0 == (#[trigger] succs@[jj]).0,
                        acc@[last as int].0 == t,
                        forall|s: int|
                            0 <= s < stack@.len() ==> (#[trigger] stack@[s]).0 == n || from_parent(
                                ls,
                                acc@,
                                stack@[s].0,
                                stack@[s].1.coords(),
                            ),
                    decreases succs@.len() - j,
                {
                    let b = succs[j].0;
                    let rd = &succs[j].1;
                    proof {
                        assert(wedge(ls, t, b, rd.coords())) by {
                            assert(ls[ei as int].1@[j as int].0 == b);
                        }
                        lemma_walk_push(ls, ns, cs, b, rd.coords());
                        assert(fits(walk_weight(cs.push(rd.coords()), d)));
                        w.lemma_coords();
                        rd.lemma_coords();
                        let v = w.coords();
                        let c = rd.coords();
                        assert forall|i: int| 0 <= i < v.len() implies in_isize(#[trigger] (1 * c[i])) && in_isize(v[i] + 1 * c[i]) by {
                            assert(axpy(v, 1, c)[i] == v[i] + 1 * c[i]);
                            assert(in_isize(c[i]));
                        }
                    }
                    let mut r2 = copy_of(&acc[last].1);
                    r2.addmul(1, rd);
                    proof {
                        assert(pending(ls, n, seen, b, r2.coords())) by {
                            let ns2 = ns.push(b);
                            let cs2 = cs.push(rd.coords());
                            assert(ns2.drop_last() =~= ns);
                            assert(forall|m: int| 0 <= m < ns2.len() - 1 ==> seen.contains(#[trigger] ns2[m]) ) by {
                                assert forall|m: int| 0 <= m < ns2.len() - 1 implies seen.contains(#[trigger] ns2[m]) by {
                                    assert(ns2[m] == ns[m]);
                                }
                            }
                            assert(is_wwalk(ls, ns2, cs2) && ns2[0] == n && ns2.last() == b);
                        }
                    }
                    assert(from_parent(ls, acc@, b, r2.coords())) by {
                        assert(wedge(ls, acc@[last as int].0, b, rd.coords()));
                    }
                    let ghost stk_j = stack@;
                    stack.push((b, r2));
                    assert(stack@ =~= stk_j.push((b, r2)));
                    assert forall|s: int| 0 <= s < stack@.len() implies (#[trigger] stack@[s]).0 == n || from_parent(
                        ls,
                        acc@,
                        stack@[s].0,
                        stack@[s].1.coords(),
                    ) by {
                        if s < stk_j.len() {
                            assert(stack@[s] == stk_j[s]);
                        }
                    }
                    assert forall|s: int| 0 <= s < stack@.len() implies pending(ls, n, seen, (#[trigger] stack@[s]).0, stack@[s].1.coords()) by {
                        if s < stk_j.len() {
                            assert(stack@[s] == stk_j[s]);
                        }
                    }
                    assert forall|jj: int| 0 <= jj < j + 1 implies stack@[stk1.len() + jj].0 == (#[trigger] succs@[jj]).0 by {
                        if jj < j {
                            assert(stack@[stk1.len() + jj] == stk_j[stk1.len() + jj]);
                        }
                    }
                    j = j + 1;
                }
                assert forall|a: u64, b: u64| #![trigger seen.contains(a), wlinked(ls, a, b)]
                    seen.contains(a) && wlinked(ls, a, b) implies seen.contains(b) || has_key(stack@, b) by {
                    if a == t {
                        let (i, jj) = choose|i: int, jj: int|
                            0 <= i < ls.len() && 0 <= jj < ls[i].1@.len() && ls[i].0 == a && (#[trigger] ls[i].1@[jj]).0 == b;
                        if i != ei {
                            if i < ei {
                                assert(ls[i].0 != ls[ei as int].0);
                            } else {
                                assert(ls[ei as int].0 != ls[i].0);
                            }
                        }
                        assert(stack@[stk1.len() + jj].0 == succs@[jj].0);
                    } else if !seen.contains(b) {
                        assert(old_seen.contains(a));
                        assert(!old_seen.contains(b));
                        assert(has_key(st0, b));
                        if b != t {
                            assert(has_key(stk1, b));
                            let s = choose|s: int| 0 <= s < stk1.len() && (#[trigger] stk1[s]).0 == b;
                            assert(stack@[s] == stk1[s]);
                        }
                    }
                }
                assert forall|i: int, jj: int| 0 <= i < jj < acc@.len() implies (#[trigger] acc@[i]).0 != (#[trigger] acc@[jj]).0 by {
                    if jj == last {
                        assert(has_key(acc0, acc0[i].0));
                    } else {
                        assert(acc@[i] == acc0[i] && acc@[jj] == acc0[jj]);
                    }
                }
                assert forall|k: int| 0 <= k < acc@.len() implies weighed(ls, n, (#[trigger] acc@[k]).0, acc@[k].1.coords()) && wreaches(ls, n, acc@[k].0) by {
                    if k < acc0.len() {
                        assert(acc@[k] == acc0[k]);
                    }
                }
            },
        }
    }
    assert forall|a: u64, b: u64| #![trigger seen.contains(a), wlinked(ls, a, b)]
        seen.contains(a) && wlinked(ls, a, b) implies seen.contains(b) by {
        if !seen.contains(b) {
            assert(has_key(stack@, b));
        }
    }
    assert forall|x: u64| #[trigger] has_key(acc@, x) <==> wreaches(ls, n, x) by {
        if has_key(acc@, x) {
            let k = choose|k: int| 0 <= k < acc@.len() && (#[trigger] acc@[k]).0 == x;
            assert(wreaches(ls, n, acc@[k].0));
        }
        if wreaches(ls, n, x) {
            let (ns, cs) = choose|ns: Seq<u64>, cs: Seq<Seq<int>>| #[trigger] is_wwalk(ls, ns, cs) && ns[0] == n && ns.last() == x;
            assert(seen.contains(n)) by {
                assert(acc@[0].0 == n);
            }
            lemma_closed_walk(ls, seen, ns, cs, ns.len() - 1);
        }
    }
    acc
}

/// The position of an entry of `cw` for `x`.
pub open spec fn key_at<R>(cw: Seq<(u64, R)>, x: u64) -> int {
    choose|k: int| 0 <= k < cw.len() && (#[trigger] cw[k]).0 == x
}

/// The weight that `cw` gives `x`.
pub open spec fn weight_in<R: ZModule>(cw: Seq<(u64, R)>, x: u64) -> Seq<int> {
    cw[key_at(cw, x)].1.coords()
}

/// The label of a link from `a` to `b` of weight `c`: the weight of `a`, plus `c`, minus the
/// weight of `b`; zero where the weights are those of walks and the link closes no cycle.
pub open spec fn cycle_label<R: ZModule>(cw: Seq<(u64, R)>, a: u64, b: u64, c: Seq<int>) -> Seq<int> {
    axpy(axpy(weight_in(cw, a), 1, c), -1, weight_in(cw, b))
}

/// The labels of the first `j` links of `a` in `succs` whose two ends `cw` holds.
pub open spec fn entry_labels<R: ZModule>(cw: Seq<(u64, R)>, a: u64, succs: Seq<(u64, R)>, j: int) -> Seq<Seq<int>>
    decreases j,
{
    if j <= 0 {
        Seq::empty()
    } else {
        entry_labels(cw, a, succs, j - 1) + if has_key(cw, a) && has_key(cw, succs[j - 1].0) {
            seq![cycle_label(cw, a, succs[j - 1].0, succs[j - 1].1.coords())]
        } else {
            Seq::empty()
        }
    }
}

/// The labels of the links of the first `i` entries of `links`, in order, over the links
/// whose two ends `cw` holds.
pub open spec fn cycle_labels<R: ZModule>(links: Seq<(u64, Vec<(u64, R)>)>, cw: Seq<(u64, R)>, i: int) -> Seq<Seq<int>>
    decreases i,
{
    if i <= 0 {
        Seq::empty()
    } else {
        cycle_labels(links, cw, i - 1) + entry_labels(cw, links[i - 1].0, links[i - 1].1@, links[i - 1].1@.len() as int)
    }
}

/// Whether each label can be computed in `isize` coordinates, whichever walks from `n`
/// that visit no node twice give the weights of its two ends.
pub open spec fn labels_fit<R: ZModule>(links: Seq<(u64, Vec<(u64, R)>)>, n: u64) -> bool {
    forall|a: u64, b: u64, c: Seq<int>, w1: Seq<int>, w2: Seq<int>|
        #![trigger weighed(links, n, a, w1), wedge(links, a, b, c), weighed(links, n, b, w2)]
        weighed(links, n, a, w1) && wedge(links, a, b, c) && weighed(links, n, b, w2) ==> addmul_ok(axpy(w1, 1, c), -1, w2)
}

pub open spec fn coords_of<R: ZModule>(r: Seq<R>) -> Seq<Seq<int>> {
    r.map_values(|x: R| x.coords())
}

/// The sum of the labels of the links of the walk `(ns, cs)`.
pub open spec fn label_sum<R: ZModule>(cw: Seq<(u64, R)>, ns: Seq<u64>, cs: Seq<Seq<int>>, d: nat) -> Seq<int>
    decreases cs.len(),
{
    if cs.len() == 0 {
        zeros(d)
    } else {
        let k = cs.len() - 1;
        axpy(label_sum(cw, ns.take(k + 1), cs.drop_last(), d), 1, cycle_label(cw, ns[k], ns[k + 1], cs[k]))
    }
}

proof fn lemma_weight_in<R: ZModule>(cw: Seq<(u64, R)>, k: int)
    requires
        0 <= k < cw.len(),
        forall|i: int, j: int| 0 <= i < j < cw.len() ==> (#[trigger] cw[i]).0 != (#[trigger] cw[j]).0,
    ensures
        weight_in(cw, cw[k].0) == cw[k].1.coords(),
{
    let k2 = key_at(cw, cw[k].0);
    assert(has_key(cw, cw[k].0));
    if k2 < k {
        assert(cw[k2].0 != cw[k].0);
    } else if k < k2 {
        assert(cw[k].0 != cw[k2].0);
    }
}

proof fn lemma_weight_len<R: ZModule>(cw: Seq<(u64, R)>, x: u64)
    requires
        has_key(cw, x),
    ensures
        weight_in(cw, x).len() == R::dim(),
{
    let k = key_at(cw, x);
    cw[k].1.lemma_coords();
}

proof fn lemma_label_sum_len<R: ZModule>(cw: Seq<(u64, R)>, ns: Seq<u64>, cs: Seq<Seq<int>>, d: nat)
    ensures
        label_sum(cw, ns, cs, d).len() == d,
    decreases cs.len(),
{
    if cs.len() > 0 {
        lemma_label_sum_len(cw, ns.take(cs.len() as int), cs.drop_last(), d);
    }
}

proof fn lemma_wedge_len<R: ZModule>(links: Seq<(u64, Vec<(u64, R)>)>, a: u64, b: u64, c: Seq<int>)
    requires
        wedge(links, a, b, c),
    ensures
        c.len() == R::dim(),
        fits(c),
{
    let (i, j) = choose|i: int, j: int|
        0 <= i < links.len() && 0 <= j < links[i].1@.len() && links[i].0 == a && (#[trigger] links[i].1@[j]).0 == b
            && links[i].1@[j].1.coords() == c;
    links[i].1@[j].1.lemma_coords();
}

proof fn lemma_walk_prefix<R: ZModule>(links: Seq<(u64, Vec<(u64, R)>)>, ns: Seq<u64>, cs: Seq<Seq<int>>)
    requires
        is_wwalk(links, ns, cs),
        cs.len() > 0,
    ensures
        is_wwalk(links, ns.take(cs.len() as int), cs.drop_last()),
        wedge(links, ns[cs.len() - 1], ns[cs.len() as int], cs.last()),
{
    let k = cs.len() - 1;
    let ns2 = ns.take(k + 1);
    let cs2 = cs.drop_last();
    assert forall|i: int| 0 <= i < cs2.len() implies #[trigger] wstep(links, ns2, cs2, i) by {
        assert(wstep(links, ns, cs, i));
        assert(ns2[i] == ns[i] && ns2[i + 1] == ns[i + 1]);
    }
    assert(wstep(links, ns, cs, k));
}

/// Every walk from `n` weighs the weight `find_connected_weights` gives its last node plus
/// the labels of its links.
pub proof fn lemma_walk_labels<R: ZModule>(links: Seq<(u64, Vec<(u64, R)>)>, n: u64, cw: Seq<(u64, R)>, ns: Seq<u64>, cs: Seq<Seq<int>>)
    requires
        connected_weights(links, n, cw),
        is_wwalk(links, ns, cs),
        ns[0] == n,
    ensures
        walk_weight(cs, R::dim()) == axpy(weight_in(cw, ns.last()), 1, label_sum(cw, ns, cs, R::dim())),
    decreases cs.len(),
{
    let d = R::dim();
    if cs.len() == 0 {
        lemma_weight_in(cw, 0);
        assert(axpy(weight_in(cw, n), 1, zeros(d)) =~= zeros(d));
    } else {
        let k = cs.len() - 1;
        let ns2 = ns.take(k + 1);
        let cs2 = cs.drop_last();
        lemma_walk_prefix(links, ns, cs);
        lemma_walk_labels(links, n, cw, ns2, cs2);
        let x = ns[k];
        let y = ns[k + 1];
        let c = cs[k];
        assert(ns2.last() == x);
        assert(wreaches(links, n, x)) by {
            assert(is_wwalk(links, ns2, cs2) && ns2[0] == n);
        }
        assert(wreaches(links, n, y)) by {
            assert(ns.last() == y);
        }
        assert(has_key(cw, x) && has_key(cw, y));
        lemma_weight_len(cw, x);
        lemma_weight_len(cw, y);
        lemma_wedge_len(links, x, y, c);
        let wx = weight_in(cw, x);
        let wy = weight_in(cw, y);
        let l2 = label_sum(cw, ns2, cs2, d);
        let w2 = walk_weight(cs2, d);
        assert(w2 == axpy(wx, 1, l2));
        let lab = cycle_label(cw, x, y, c);
        assert(label_sum(cw, ns, cs, d) == axpy(l2, 1, lab));
        assert(walk_weight(cs, d) == axpy(w2, 1, c));
        lemma_label_sum_len(cw, ns2, cs2, d);
        let lhs = walk_weight(cs, d);
        let rhs = axpy(wy, 1, axpy(l2, 1, lab));
        assert forall|t: int| 0 <= t < d implies lhs[t] == rhs[t] by {
            assert(w2[t] == wx[t] + 1 * l2[t]);
            assert(lab[t] == axpy(wx, 1, c)[t] + -1 * wy[t]);
            assert(axpy(wx, 1, c)[t] == wx[t] + 1 * c[t]);
        }
        assert(lhs =~= rhs);
    }
}

proof fn lemma_entry_labels_has<R: ZModule>(cw: Seq<(u64, R)>, a: u64, succs: Seq<(u64, R)>, j: int, jj: int)
    requires
        0 <= jj < j <= succs.len(),
        has_key(cw, a),
        has_key(cw, succs[jj].0),
    ensures
        entry_labels(cw, a, succs, j).contains(cycle_label(cw, a, succs[jj].0, succs[jj].1.coords())),
    decreases j,
{
    let lab = cycle_label(cw, a, succs[jj].0, succs[jj].1.coords());
    let pre = entry_labels(cw, a, succs, j - 1);
    let all = entry_labels(cw, a, succs, j);
    if jj == j - 1 {
        assert(all[pre.len() as int] == lab);
    } else {
        lemma_entry_labels_has(cw, a, succs, j - 1, jj);
        let p = choose|p: int| 0 <= p < pre.len() && pre[p] == lab;
        assert(all[p] == lab);
    }
}

proof fn lemma_cycle_labels_has<R: ZModule>(links: Seq<(u64, Vec<(u64, R)>)>, cw: Seq<(u64, R)>, i: int, ii: int, lab: Seq<int>)
    requires
        0 <= ii < i <= links.len(),
        entry_labels(cw, links[ii].0, links[ii].1@, links[ii].1@.len() as int).contains(lab),
    ensures
        cycle_labels(links, cw, i).contains(lab),
    decreases i,
{
    let pre = cycle_labels(links, cw, i - 1);
    let all = cycle_labels(links, cw, i);
    if ii == i - 1 {
        let e = entry_labels(cw, links[ii].0, links[ii].1@, links[ii].1@.len() as int);
        let p = choose|p: int| 0 <= p < e.len() && e[p] == lab;
        assert(all[pre.len() + p] == lab);
    } else {
        lemma_cycle_labels_has(links, cw, i - 1, ii, lab);
        let p = choose|p: int| 0 <= p < pre.len() && pre[p] == lab;
        assert(all[p] == lab);
    }
}

/// Every link on a walk from `n` has its label among those of `cycle_labels`: with
/// `lemma_walk_labels`, the weights of any two walks from `n` to one node differ by an integer
/// combination of the generators.
pub proof fn lemma_labels_listed<R: ZModule>(links: Seq<(u64, Vec<(u64, R)>)>, n: u64, cw: Seq<(u64, R)>, a: u64, b: u64, c: Seq<int>)
    requires
        connected_weights(links, n, cw),
        wreaches(links, n, a),
        wedge(links, a, b, c),
    ensures
        cycle_labels(links, cw, links.len() as int).contains(cycle_label(cw, a, b, c)),
{
    let (i, j) = choose|i: int, j: int|
        0 <= i < links.len() && 0 <= j < links[i].1@.len() && links[i].0 == a && (#[trigger] links[i].1@[j]).0 == b
            && links[i].1@[j].1.coords() == c;
    let (ns, cs) = choose|ns: Seq<u64>, cs: Seq<Seq<int>>| #[trigger] is_wwalk(links, ns, cs) && ns[0] == n && ns.last() == a;
    lemma_walk_push(links, ns, cs, b, c);
    assert(wreaches(links, n, b)) by {
        assert(is_wwalk(links, ns.push(b), cs.push(c)) && ns.push(b)[0] == n && ns.push(b).last() == b);
    }
    lemma_entry_labels_has(cw, a, links[i].1@, links[i].1@.len() as int, j);
    lemma_cycle_labels_has(links, cw, links.len() as int, i, cycle_label(cw, a, b, c));
}

/// Generators for the weights of cycles through the nodes reached from `n`: for each link,
/// in the order of `links`, whose two ends are reached, the weight found for its start plus
/// its own weight minus the weight found for its end.
pub fn find_cycle_weight_generators<R: ZModule + Clone>(links: &Vec<(u64, Vec<(u64, R)>)>, n: u64) -> (r: Vec<R>)
    requires
        wkeys_unique(links@),
        reached_keyed(links@, n),
        paths_fit(links@, n),
        labels_fit(links@, n),
    ensures
        exists|cw: Seq<(u64, R)>|
            connected_weights(links@, n, cw) && #[trigger] coords_of(r@) == cycle_labels(links@, cw, links@.len() as int),
{
    let ghost ls = links@;
    let ghost d = R::dim();
    let cw = find_connected_weights(links, n);
    let mut acc: Vec<R> = Vec::new();
    let mut i: usize = 0;
    while i < links.len()
        invariant
            ls == links@,
            d == R::dim(),
            paths_fit(ls, n),
            labels_fit(ls, n),
            i <= ls.len(),
            connected_weights(ls, n, cw@),
            coords_of(acc@) == cycle_labels(ls, cw@, i as int),
        decreases ls.len() - i,
    {
        let n1 = links[i].0;
        let succs = &links[i].1;
        let ghost acc_i = coords_of(acc@);
        let mut j: usize = 0;
        while j < succs.len()
            invariant
                ls == links@,
                d == R::dim(),
                paths_fit(ls, n),
                labels_fit(ls, n),
                i < ls.len(),
                n1 == ls[i as int].0,
                succs@ == ls[i as int].1@,
                j <= succs@.len(),
                connected_weights(ls, n, cw@),
                acc_i == cycle_labels(ls, cw@, i as int),
                coords_of(acc@) == acc_i + entry_labels(cw@, n1, succs@, j as int),
            decreases succs@.len() - j,
        {
            let n2 = succs[j].0;
            let r = &succs[j].1;
            let ghost acc_j = coords_of(acc@);
            match key_index(&cw, n1) {
                Some(k1) => {
                    match key_index(&cw, n2) {
                        Some(k2) => {
                            let ghost w1 = cw@[k1 as int].1.coords();
                            let ghost w2 = cw@[k2 as int].1.coords();
                            let ghost c = r.coords();
                            proof {
                                assert(wedge(ls, n1, n2, c)) by {
                                    assert(ls[i as int].1@[j as int].0 == n2);
                                }
                                assert(weighed(ls, n, cw@[k1 as int].0, w1));
                                assert(weighed(ls, n, cw@[k2 as int].0, w2));
                                assert(addmul_ok(axpy(w1, 1, c), -1, w2));
                                let (ns, cs) = choose|ns: Seq<u64>, cs: Seq<Seq<int>>|
                                    #[trigger] is_wwalk(ls, ns, cs) && ns[0] == n && ns.last() == n1 && ns.no_duplicates()
                                        && walk_weight(cs, R::dim()) == w1;
                                lemma_walk_push(ls, ns, cs, n2, c);
                                assert(fits(axpy(w1, 1, c)));
                                cw@[k1 as int].1.lemma_coords();
                                r.lemma_coords();
                                assert forall|t: int| 0 <= t < w1.len() implies in_isize(#[trigger] (1 * c[t])) && in_isize(w1[t] + 1 * c[t]) by {
                                    assert(axpy(w1, 1, c)[t] == w1[t] + 1 * c[t]);
                                    assert(in_isize(c[t]));
                                }
                                lemma_weight_in(cw@, k1 as int);
                                lemma_weight_in(cw@, k2 as int);
                            }
                            let mut label = copy_of(&cw[k1].1);
                            label.addmul(1, r);
                            label.addmul(-1, &cw[k2].1);
                            acc.push(label);
                            proof {
                                assert(has_key(cw@, n1) && has_key(cw@, n2));
                                assert(coords_of(acc@) =~= acc_j.push(cycle_label(cw@, n1, n2, c)));
                                assert(entry_labels(cw@, n1, succs@, j + 1) =~= entry_labels(cw@, n1, succs@, j as int).push(cycle_label(cw@, n1, n2, c)));
                            }
                        },
                        None => {
                            assert(entry_labels(cw@, n1, succs@, j + 1) =~= entry_labels(cw@, n1, succs@, j as int));
                        },
                    }
                },
                None => {
                    assert(entry_labels(cw@, n1, succs@, j + 1) =~= entry_labels(cw@, n1, succs@, j as int));
                },
            }
            j = j + 1;
        }
        i = i + 1;
    }
    acc
}

} // verus!
