use vstd::prelude::*;

use crate::directive::Directive;

verus! {

/// One item of a lexed source file: a directive, or an `IMPORT` already
/// resolved to the number of the file it names (files are numbered by
/// canonical path, so one file always has one number).
#[derive(Debug)]
pub enum Entry {
    Plain(Directive),
    Include(usize),
}

/// The result of merging a program's files.
#[derive(Debug)]
pub struct Merged {
    /// The merged directives, without imports.
    pub directives: Vec<Directive>,
    /// The files in the order they were first reached.
    pub order: Vec<usize>,
    /// For each merged directive, the file and entry it came from.
    pub origins: Vec<(usize, usize)>,
}

pub open spec fn valid_at(units: Seq<Vec<Entry>>, f: int, p: int) -> bool {
    0 <= f < units.len() && 0 <= p < units[f]@.len()
}

/// File `f` imports file `g`.
pub open spec fn imports(units: Seq<Vec<Entry>>, f: int, g: int) -> bool {
    exists|p: int| valid_at(units, f, p) && #[trigger] units[f]@[p] == Entry::Include(g as usize)
}

/// The `k`-th file reached is imported by one reached before it.
pub open spec fn reached_earlier(units: Seq<Vec<Entry>>, order: Seq<usize>, k: int) -> bool {
    exists|j: int| 0 <= j < k && #[trigger] imports(units, order[j] as int, order[k] as int)
}

/// Entry `p` of file `f` is merged at some position of `origins`.
pub open spec fn merged_at_some(origins: Seq<(usize, usize)>, f: int, p: int) -> bool {
    exists|m: int| 0 <= m < origins.len() && #[trigger] origins[m] == (f as usize, p as usize)
}

/// What merging `units` from `root` guarantees of its result: the files
/// reached are those imported, transitively, from `root`, each reached
/// once; every directive of each of them is merged exactly once, and the
/// directives of one file keep their order.
pub open spec fn merge_spec(units: Seq<Vec<Entry>>, root: int, r: Merged) -> bool {
    let order = r.order@;
    let origins = r.origins@;
    &&& order.len() >= 1
    &&& order[0] == root
    &&& forall|k: int| 0 <= k < order.len() ==> #[trigger] order[k] < units.len()
    &&& forall|i: int, j: int| 0 <= i < j < order.len() ==> order[i] != order[j]
    &&& forall|k: int| 1 <= k < order.len() ==> #[trigger] reached_earlier(units, order, k)
    &&& forall|k: int, p: int|
        0 <= k < order.len() && valid_at(units, order[k] as int, p) && #[trigger] units[order[k] as int]@[p] is Include
            && units[order[k] as int]@[p]->Include_0 < units.len() ==> order.contains(
            units[order[k] as int]@[p]->Include_0,
        )
    &&& origins.len() == r.directives@.len()
    &&& forall|m: int|
        0 <= m < origins.len() ==> valid_at(units, (#[trigger] origins[m]).0 as int, origins[m].1 as int)
            && order.contains(origins[m].0) && units[origins[m].0 as int]@[origins[m].1 as int] is Plain
            && r.directives@[m]@ == units[origins[m].0 as int]@[origins[m].1 as int]->Plain_0@
    &&& forall|m1: int, m2: int|
        0 <= m1 < m2 < origins.len() && (#[trigger] origins[m1]).0 == (#[trigger] origins[m2]).0 ==> origins[m1].1
            < origins[m2].1
    &&& forall|m1: int, m2: int| 0 <= m1 < m2 < origins.len() ==> #[trigger] origins[m1] != #[trigger] origins[m2]
    &&& forall|k: int, p: int|
        0 <= k < order.len() && valid_at(units, order[k] as int, p) && #[trigger] units[order[k] as int]@[p] is Plain
            ==> merged_at_some(origins, order[k] as int, p)
}

/// The origins of the merged directives, in output order: a depth-first
/// walk where `stack` holds, for each file being read, the entry to read
/// next. Reading a directive emits it; reading an import of a file not
/// yet `visited` starts reading that file; a finished file is left.
/// `fuel` bounds the steps (see `walk_fuel`).
pub open spec fn walk(units: Seq<Vec<Entry>>, stack: Seq<(usize, usize)>, visited: Seq<bool>, fuel: nat) -> Seq<
    (usize, usize),
>
    decreases fuel,
{
    if fuel == 0 || stack.len() == 0 {
        Seq::empty()
    } else {
        let (f, p) = stack.last();
        if p >= units[f as int]@.len() {
            walk(units, stack.drop_last(), visited, (fuel - 1) as nat)
        } else {
            let next = stack.update(stack.len() - 1, (f, (p + 1) as usize));
            match units[f as int]@[p as int] {
                Entry::Plain(_) => seq![(f, p)] + walk(units, next, visited, (fuel - 1) as nat),
                Entry::Include(g) => if g < units.len() && !visited[g as int] {
                    walk(units, next.push((g, 0usize)), visited.update(g as int, true), (fuel - 1) as nat)
                } else {
                    walk(units, next, visited, (fuel - 1) as nat)
                },
            }
        }
    }
}

/// Entries plus one for each of the first `k` files not in `visited`.
pub open spec fn unvisited_weight(units: Seq<Vec<Entry>>, visited: Seq<bool>, k: int) -> nat
    decreases k,
{
    if k <= 0 {
        0
    } else {
        unvisited_weight(units, visited, k - 1) + (if visited[k - 1] {
            0nat
        } else {
            (units[k - 1]@.len() + 1) as nat
        })
    }
}

/// Enough steps for the whole walk: every entry of every file, plus one
/// step to leave each file.
pub open spec fn walk_fuel(units: Seq<Vec<Entry>>) -> nat {
    unvisited_weight(units, Seq::new(units.len(), |_g: int| false), units.len() as int)
}

/// The origins of the merged directives of `units` from `root`, in order.
pub open spec fn merge_order(units: Seq<Vec<Entry>>, root: int) -> Seq<(usize, usize)> {
    walk(
        units,
        seq![(root as usize, 0usize)],
        Seq::new(units.len(), |_g: int| false).update(root, true),
        walk_fuel(units),
    )
}

proof fn lemma_weight_set(units: Seq<Vec<Entry>>, visited: Seq<bool>, g: int, k: int)
    requires
        0 <= g < visited.len(),
        !visited[g],
        0 <= k <= visited.len(),
    ensures
        g < k ==> unvisited_weight(units, visited.update(g, true), k) + units[g]@.len() + 1 == unvisited_weight(
            units,
            visited,
            k,
        ),
        g >= k ==> unvisited_weight(units, visited.update(g, true), k) == unvisited_weight(units, visited, k),
    decreases k,
{
    if k > 0 {
        lemma_weight_set(units, visited, g, k - 1);
    }
}

proof fn lemma_walk_done(units: Seq<Vec<Entry>>, visited: Seq<bool>, fuel: nat)
    ensures
        walk(units, Seq::empty(), visited, fuel) == Seq::<(usize, usize)>::empty(),
{
}

/// Unvisited files.
spec fn count_false(s: Seq<bool>) -> nat
    decreases s.len(),
{
    if s.len() == 0 {
        0
    } else {
        count_false(s.drop_last()) + (if s.last() { 0nat } else { 1nat })
    }
}

proof fn lemma_count_false_set(s: Seq<bool>, i: int)
    requires
        0 <= i < s.len(),
        !s[i],
    ensures
        count_false(s.update(i, true)) + 1 == count_false(s),
    decreases s.len(),
{
    let t = s.update(i, true);
    if i == s.len() - 1 {
        assert(t.drop_last() =~= s.drop_last());
    } else {
        assert(t.drop_last() =~= s.drop_last().update(i, true));
        lemma_count_false_set(s.drop_last(), i);
    }
}

/// Entries still to read on the stack, plus one per frame.
spec fn stack_measure(units: Seq<Vec<Entry>>, st: Seq<(usize, usize)>) -> nat
    decreases st.len(),
{
    if st.len() == 0 {
        0
    } else {
        stack_measure(units, st.drop_last()) + ((units[st.last().0 as int]@.len() - st.last().1 + 1) as nat)
    }
}

spec fn on_stack(st: Seq<(usize, usize)>, g: int) -> bool {
    exists|i: int| 0 <= i < st.len() && #[trigger] st[i].0 == g
}

/// Merges the files of a program from `root`: each `Include` of a file
/// not reached before is replaced, in place, by that file's directives;
/// an `Include` of a file already reached is dropped, so import cycles end.
pub fn merge_imports(units: &Vec<Vec<Entry>>, root: usize) -> (r: Merged)
    requires
        root < units.len(),
    ensures
        merge_spec(units@, root as int, r),
        r.origins@ == merge_order(units@, root as int),
{
    let ghost u = units@;
    let n = units.len();
    let mut visited: Vec<bool> = Vec::new();
    while visited.len() < n
        invariant
            visited.len() <= n,
            forall|g: int| 0 <= g < visited.len() ==> !visited@[g],
        decreases n - visited.len(),
    {
        visited.push(false);
    }
    let ghost all_false = visited@;
    proof {
        assert(all_false =~= Seq::new(n as nat, |_g: int| false));
        lemma_weight_set(units@, all_false, root as int, n as int);
    }
    visited.set(root, true);
    let ghost fuel = walk_fuel(units@);
    let ghost mut steps: nat = 0;
    let mut order: Vec<usize> = Vec::new();
    order.push(root);
    let mut origins: Vec<(usize, usize)> = Vec::new();
    let mut directives: Vec<Directive> = Vec::new();
    let mut stack: Vec<(usize, usize)> = Vec::new();
    stack.push((root, 0));
    let ghost mut scanned: Seq<int> = Seq::new(n as nat, |_g: int| 0int);
    let ghost mut parent: Seq<int> = seq![0int];
    proof {
        assert(order@[0] == root);
        assert(stack@[0].0 == root);
        assert(stack@ =~= seq![(root, 0usize)]);
        assert(visited@ =~= all_false.update(root as int, true));
        assert(stack@.drop_last() =~= Seq::<(usize, usize)>::empty());
        assert(stack_measure(u, Seq::<(usize, usize)>::empty()) == 0);
        assert(stack@.last() == (root, 0usize));
        assert(stack_measure(u, stack@) == u[root as int]@.len() + 1);
        assert(unvisited_weight(u, visited@, n as int) + u[root as int]@.len() + 1 == fuel);
        assert(origins@ + walk(u, stack@, visited@, fuel) =~= walk(u, stack@, visited@, fuel));
    }
    while stack.len() > 0
        invariant
            u == units@,
            n == units.len(),
            root < n,
            visited.len() == n,
            scanned.len() == n,
            order.len() >= 1,
            order@[0] == root,
            forall|k: int| 0 <= k < order.len() ==> #[trigger] order@[k] < n,
            forall|i: int, j: int| 0 <= i < j < order.len() ==> order@[i] != order@[j],
            forall|g: int| 0 <= g < n ==> (visited@[g] <==> order@.contains(g as usize)),
            parent.len() == order.len(),
            forall|k: int|
                1 <= k < order.len() ==> 0 <= #[trigger] parent[k] < k && imports(u, order@[parent[k]] as int, order@[k] as int),
            forall|i: int|
                0 <= i < stack.len() ==> (#[trigger] stack@[i]).0 < n && visited@[stack@[i].0 as int]
                    && stack@[i].1 <= u[stack@[i].0 as int]@.len() && scanned[stack@[i].0 as int] == stack@[i].1,
            forall|i: int, j: int| 0 <= i < j < stack.len() ==> (#[trigger] stack@[i]).0 != (#[trigger] stack@[j]).0,
            forall|g: int| 0 <= g < n && !visited@[g] ==> #[trigger] scanned[g] == 0,
            forall|g: int|
                0 <= g < n && visited@[g] && !on_stack(stack@, g) ==> #[trigger] scanned[g] == u[g]@.len(),
            forall|g: int| 0 <= g < n ==> 0 <= #[trigger] scanned[g] <= u[g]@.len(),
            forall|g: int, p: int|
                0 <= g < n && 0 <= p < scanned[g] && #[trigger] u[g]@[p] is Plain ==> merged_at_some(origins@, g, p),
            forall|g: int, p: int|
                0 <= g < n && 0 <= p < scanned[g] && #[trigger] u[g]@[p] is Include && u[g]@[p]->Include_0 < n
                    ==> visited@[u[g]@[p]->Include_0 as int],
            origins.len() == directives.len(),
            forall|m: int|
                0 <= m < origins.len() ==> valid_at(u, (#[trigger] origins@[m]).0 as int, origins@[m].1 as int)
                    && visited@[origins@[m].0 as int] && origins@[m].1 < scanned[origins@[m].0 as int]
                    && u[origins@[m].0 as int]@[origins@[m].1 as int] is Plain
                    && directives@[m]@ == u[origins@[m].0 as int]@[origins@[m].1 as int]->Plain_0@,
            forall|m1: int, m2: int|
                0 <= m1 < m2 < origins.len() && (#[trigger] origins@[m1]).0 == (#[trigger] origins@[m2]).0
                    ==> origins@[m1].1 < origins@[m2].1,
            unvisited_weight(u, visited@, n as int) + stack_measure(u, stack@) + steps == fuel,
            fuel == walk_fuel(u),
            merge_order(u, root as int) == origins@ + walk(u, stack@, visited@, (fuel - steps) as nat),
        decreases count_false(visited@), stack_measure(u, stack@),
    {
        let top = stack.len() - 1;
        let (f, p) = stack[top];
        let ghost st_b = stack@;
        let ghost vis_b = visited@;
        let ghost or_b = origins@;
        let ghost left = (fuel - steps) as nat;
        proof {
            assert(stack_measure(u, st_b) >= 1);
            assert(left >= 1);
        }
        if p >= units[f].len() {
            let ghost before = stack@;
            stack.pop();
            proof {
                assert(stack@ =~= before.drop_last());
                assert(walk(u, st_b, vis_b, left) == walk(u, stack@, visited@, (left - 1) as nat));
                assert(stack_measure(u, st_b) == stack_measure(u, stack@) + 1);
                steps = steps + 1;
                assert forall|g: int| 0 <= g < n && visited@[g] && !on_stack(stack@, g) implies #[trigger] scanned[g]
                    == u[g]@.len() by {
                    if g == f as int {
                    } else {
                        if on_stack(before, g) {
                            let i = choose|i: int| 0 <= i < before.len() && #[trigger] before[i].0 == g;
                            assert(i != top);
                            assert(stack@[i].0 == g);
                        }
                    }
                }
            }
        } else {
            let ghost st0 = stack@;
            let ghost sc0 = scanned;
            stack.set(top, (f, p + 1));
            proof {
                scanned = scanned.update(f as int, (p + 1) as int);
                assert(stack@.drop_last() =~= st0.drop_last());
                assert forall|g: int| #[trigger] on_stack(stack@, g) == on_stack(st0, g) by {
                    if on_stack(st0, g) {
                        let i = choose|i: int| 0 <= i < st0.len() && #[trigger] st0[i].0 == g;
                        assert(stack@[i].0 == g);
                    }
                    if on_stack(stack@, g) {
                        let i = choose|i: int| 0 <= i < stack@.len() && #[trigger] stack@[i].0 == g;
                        assert(st0[i].0 == g);
                    }
                }
            }
            let ghost next = stack@;
            proof {
                assert(next == st_b.update(st_b.len() - 1, (f, (p + 1) as usize)));
                assert(stack_measure(u, st_b) == stack_measure(u, next) + 1);
            }
            match &units[f][p] {
                Entry::Plain(d) => {
                    let ghost o0 = origins@;
                    directives.push(d.duplicate());
                    origins.push((f, p));
                    proof {
                        assert(walk(u, st_b, vis_b, left) == seq![(f, p)] + walk(u, next, vis_b, (left - 1) as nat));
                        assert(or_b + (seq![(f, p)] + walk(u, next, vis_b, (left - 1) as nat)) =~= origins@ + walk(
                            u,
                            next,
                            vis_b,
                            (left - 1) as nat,
                        ));
                        steps = steps + 1;
                        assert(origins@[o0.len() as int] == (f, p));
                        assert forall|g: int, q: int|
                            0 <= g < n && 0 <= q < scanned[g] && #[trigger] u[g]@[q] is Plain implies merged_at_some(
                            origins@,
                            g,
                            q,
                        ) by {
                            if g == f as int && q == p as int {
                                assert(origins@[o0.len() as int] == (g as usize, q as usize));
                            } else {
                                assert(merged_at_some(o0, g, q));
                                let m = choose|m: int| 0 <= m < o0.len() && #[trigger] o0[m] == (g as usize, q as usize);
                                assert(origins@[m] == o0[m]);
                            }
                        }
                    }
                },
                Entry::Include(g) => {
                    let g = *g;
                    proof {
                        assert(u[f as int]@[p as int] == Entry::Include(g));
                    }
                    if g < n && !visited[g] {
                        let ghost v0 = visited@;
                        let ghost ord0 = order@;
                        let ghost st1 = stack@;
                        proof {
                            assert(u[f as int]@[p as int] == Entry::Include(g));
                            assert(imports(u, f as int, g as int));
                            lemma_count_false_set(visited@, g as int);
                            assert(!on_stack(st1, g as int)) by {
                                if on_stack(st1, g as int) {
                                    let i = choose|i: int| 0 <= i < st1.len() && #[trigger] st1[i].0 == g as int;
                                }
                            }
                        }
                        visited.set(g, true);
                        order.push(g);
                        stack.push((g, 0));
                        proof {
                            assert(stack@ == next.push((g, 0usize)));
                            assert(stack@.drop_last() =~= next);
                            assert(stack_measure(u, stack@) == stack_measure(u, next) + u[g as int]@.len() + 1);
                            assert(walk(u, st_b, vis_b, left) == walk(u, stack@, visited@, (left - 1) as nat));
                            lemma_weight_set(u, vis_b, g as int, n as int);
                            steps = steps + 1;
                            assert forall|h: int| 0 <= h < n implies (visited@[h] <==> order@.contains(h as usize)) by {
                                if h == g as int {
                                    assert(order@[ord0.len() as int] == g);
                                } else {
                                    if ord0.contains(h as usize) {
                                        let k = choose|k: int| 0 <= k < ord0.len() && ord0[k] == h as usize;
                                        assert(order@[k] == h as usize);
                                    }
                                    if order@.contains(h as usize) {
                                        let k = choose|k: int| 0 <= k < order@.len() && order@[k] == h as usize;
                                        assert(k < ord0.len());
                                        assert(ord0[k] == h as usize);
                                    }
                                }
                            }
                            assert(v0[f as int]);
                            assert(ord0.contains(f));
                            let jj = choose|jj: int| 0 <= jj < ord0.len() && ord0[jj] == f;
                            parent = parent.push(jj);
                            assert(order@[jj] == f);
                            assert(order@[ord0.len() as int] == g);
                            assert forall|k: int| 1 <= k < order.len() implies 0 <= #[trigger] parent[k] < k && imports(
                                u,
                                order@[parent[k]] as int,
                                order@[k] as int,
                            ) by {
                                if k < ord0.len() {
                                    assert(order@[k] == ord0[k]);
                                    assert(order@[parent[k]] == ord0[parent[k]]);
                                }
                            }
                            assert forall|h: int| 0 <= h < n && visited@[h] && !on_stack(stack@, h) implies #[trigger] scanned[h]
                                == u[h]@.len() by {
                                if h != g as int {
                                    assert(v0[h]);
                                    if on_stack(st1, h) {
                                        let i = choose|i: int| 0 <= i < st1.len() && #[trigger] st1[i].0 == h;
                                        assert(stack@[i].0 == h);
                                    }
                                } else {
                                    assert(stack@[st1.len() as int].0 == g);
                                }
                            }
                        }
                    } else {
                        proof {
                            assert(walk(u, st_b, vis_b, left) == walk(u, next, vis_b, (left - 1) as nat));
                            steps = steps + 1;
                        }
                    }
                },
            }
        }
    }
    proof {
        assert forall|g: int| 0 <= g < n && visited@[g] implies #[trigger] scanned[g] == u[g]@.len() by {
            assert(!on_stack(stack@, g));
        }
        assert forall|k: int| 0 <= k < order.len() implies #[trigger] visited@[order@[k] as int] by {
            assert(order@.contains(order@[k]));
        }
        assert forall|m1: int, m2: int| 0 <= m1 < m2 < origins.len() implies #[trigger] origins@[m1]
            != #[trigger] origins@[m2] by {
            if origins@[m1].0 == origins@[m2].0 {
                assert(origins@[m1].1 < origins@[m2].1);
            }
        }
        assert forall|m: int| 0 <= m < origins.len() implies order@.contains((#[trigger] origins@[m]).0) by {
            assert(visited@[origins@[m].0 as int]);
        }
    }
    proof {
        assert forall|k: int, p: int|
            0 <= k < order.len() && valid_at(u, order@[k] as int, p) && #[trigger] u[order@[k] as int]@[p] is Include
                && u[order@[k] as int]@[p]->Include_0 < u.len() implies order@.contains(
            u[order@[k] as int]@[p]->Include_0,
        ) by {
            let g = order@[k] as int;
            assert(visited@[g]);
            assert(scanned[g] == u[g]@.len());
            assert(visited@[u[g]@[p]->Include_0 as int]);
        }
        assert forall|k: int, p: int|
            0 <= k < order.len() && valid_at(u, order@[k] as int, p) && #[trigger] u[order@[k] as int]@[p] is Plain
                implies merged_at_some(origins@, order@[k] as int, p) by {
            let g = order@[k] as int;
            assert(visited@[g]);
            assert(scanned[g] == u[g]@.len());
        }
    }
    let ghost ord = order@;
    let r = Merged { directives, order, origins };
    proof {
        assert(r.order@ == ord);
        lemma_walk_done(u, visited@, (fuel - steps) as nat);
        assert(origins@ + Seq::<(usize, usize)>::empty() =~= origins@);
        assert forall|k: int| 1 <= k < r.order@.len() implies #[trigger] reached_earlier(units@, r.order@, k) by {
            let j = parent[k];
            assert(imports(units@, r.order@[j] as int, r.order@[k] as int));
        }
    }
    r
}

} // verus!
