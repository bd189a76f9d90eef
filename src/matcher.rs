use vstd::prelude::*;

use crate::program::{
    accepts, active, chars_of, eps_path, eps_reach, eps_succ, in_closure, is_stop, jump_target,
    split_target, wf_program, Instruction,
};

verus! {

/// Number of unmarked entries.
pub open spec fn count_unmarked(s: Seq<bool>) -> nat
    decreases s.len(),
{
    if s.len() == 0 {
        0
    } else {
        count_unmarked(s.drop_last()) + if s.last() {
            0nat
        } else {
            1nat
        }
    }
}

/// The epsilon successors of `v` are all marked.
pub open spec fn succs_marked(p: Seq<Instruction>, vis: Seq<bool>, v: int) -> bool {
    match p[v] {
        Instruction::Split(d) => vis[v + 1] && vis[split_target(v, d)],
        Instruction::Jump(d) => vis[jump_target(v, d)],
        _ => true,
    }
}

/// Every marked index outside the worklist has its epsilon successors marked.
pub open spec fn closed_except(p: Seq<Instruction>, vis: Seq<bool>, wl: Seq<usize>) -> bool {
    forall|v: int|
        0 <= v < p.len() && #[trigger] vis[v] && !wl.contains(v as usize) ==> succs_marked(
            p,
            vis,
            v,
        )
}

pub proof fn lemma_mark_one(s: Seq<bool>, i: int)
    requires
        0 <= i < s.len(),
        !s[i],
    ensures
        count_unmarked(s.update(i, true)) + 1 == count_unmarked(s),
    decreases s.len(),
{
    if i == s.len() - 1 {
        assert(s.update(i, true).drop_last() =~= s.drop_last());
    } else {
        assert(s.update(i, true).drop_last() =~= s.drop_last().update(i, true));
        lemma_mark_one(s.drop_last(), i);
    }
}

/// In a well-formed program every epsilon edge, and the step after a Literal,
/// stays inside the program.
pub proof fn lemma_wf_edges(p: Seq<Instruction>, v: int)
    requires
        wf_program(p),
        0 <= v < p.len(),
    ensures
        match p[v] {
            Instruction::Literal(_) => v + 1 < p.len(),
            Instruction::Split(d) => v + 1 < p.len() && 0 <= split_target(v, d) < p.len(),
            Instruction::Jump(d) => 0 <= jump_target(v, d) < p.len(),
            Instruction::Match => v == p.len() - 1,
        },
{
    if v < p.len() - 1 {
        assert(p.drop_last()[v] == p[v]);
    }
}

pub proof fn lemma_path_extend(p: Seq<Instruction>, i: int, v: int, w: int, n: nat)
    requires
        eps_path(p, i, v, n),
        eps_succ(p, v, w),
    ensures
        eps_path(p, i, w, n + 1),
    decreases n,
{
    if n == 0 {
        assert(eps_path(p, w, w, 0));
    } else {
        match p[i] {
            Instruction::Split(d) => {
                if eps_path(p, i + 1, v, (n - 1) as nat) {
                    lemma_path_extend(p, i + 1, v, w, (n - 1) as nat);
                } else {
                    lemma_path_extend(p, split_target(i, d), v, w, (n - 1) as nat);
                }
            },
            Instruction::Jump(d) => {
                lemma_path_extend(p, jump_target(i, d), v, w, (n - 1) as nat);
            },
            _ => {},
        }
    }
}

pub proof fn lemma_reach_extend(p: Seq<Instruction>, i: int, v: int, w: int)
    requires
        eps_reach(p, i, v),
        eps_succ(p, v, w),
    ensures
        eps_reach(p, i, w),
{
    let n = choose|n: nat| eps_path(p, i, v, n);
    lemma_path_extend(p, i, v, w, n);
}

/// A marking closed under epsilon edges holds everything reachable from a
/// marked index.
pub proof fn lemma_closed_reach(p: Seq<Instruction>, vis: Seq<bool>, i: int, j: int, n: nat)
    requires
        wf_program(p),
        vis.len() == p.len(),
        closed_except(p, vis, Seq::empty()),
        0 <= i < p.len(),
        vis[i],
        eps_path(p, i, j, n),
    ensures
        0 <= j < p.len(),
        vis[j],
    decreases n,
{
    if n > 0 {
        lemma_wf_edges(p, i);
        assert(succs_marked(p, vis, i));
        match p[i] {
            Instruction::Split(d) => {
                if eps_path(p, i + 1, j, (n - 1) as nat) {
                    lemma_closed_reach(p, vis, i + 1, j, (n - 1) as nat);
                } else {
                    lemma_closed_reach(p, vis, split_target(i, d), j, (n - 1) as nat);
                }
            },
            Instruction::Jump(d) => {
                lemma_closed_reach(p, vis, jump_target(i, d), j, (n - 1) as nat);
            },
            _ => {},
        }
    }
}

/// Marks `v` if it is not marked yet, and queues it for expansion.
fn visit(
    p: &Vec<Instruction>,
    start: Ghost<int>,
    v: usize,
    vis: &mut Vec<bool>,
    wl: &mut Vec<usize>,
)
    requires
        v < old(vis).len(),
        old(vis).len() == p.len(),
        eps_reach(p@, start@, v as int),
        forall|k: int| 0 <= k < old(wl).len() ==> (#[trigger] old(wl)@[k]) < old(vis).len() && old(vis)@[old(wl)@[k] as int] && eps_reach(p@, start@, old(wl)@[k] as int),
    ensures
        final(vis).len() == old(vis).len(),
        final(vis)@[v as int],
        forall|j: int| 0 <= j < final(vis).len() && j != v ==> final(vis)@[j] == old(vis)@[j],
        old(vis)@[v as int] ==> final(vis)@ == old(vis)@ && final(wl)@ == old(wl)@,
        !old(vis)@[v as int] ==> final(wl)@ == old(wl)@.push(v) && count_unmarked(final(vis)@) + 1 == count_unmarked(old(vis)@),
        forall|k: int| 0 <= k < final(wl).len() ==> (#[trigger] final(wl)@[k]) < final(vis).len() && final(vis)@[final(wl)@[k] as int] && eps_reach(p@, start@, final(wl)@[k] as int),
        forall|x: usize| #[trigger] old(wl)@.contains(x) ==> final(wl)@.contains(x),
        !old(vis)@[v as int] ==> final(wl)@.contains(v),
{
    if !vis[v] {
        proof {
            lemma_mark_one(vis@, v as int);
        }
        vis.set(v, true);
        let ghost wl0 = wl@;
        wl.push(v);
        assert(wl@[wl0.len() as int] == v);
        assert forall|x: usize| #[trigger] wl0.contains(x) implies wl@.contains(x) by {
            let k = choose|k: int| 0 <= k < wl0.len() && wl0[k] == x;
            assert(wl@[k] == x);
        }
    }
}

/// Marks the epsilon-closure of `start` on top of a closed marking: afterwards
/// exactly the indices that were marked or are reachable from `start` are.
fn add_closure(p: &Vec<Instruction>, start: usize, vis: &mut Vec<bool>)
    requires
        wf_program(p@),
        start < p.len(),
        old(vis).len() == p.len(),
        closed_except(p@, old(vis)@, Seq::empty()),
    ensures
        final(vis).len() == p.len(),
        closed_except(p@, final(vis)@, Seq::empty()),
        forall|j: int|
            0 <= j < p.len() ==> (#[trigger] final(vis)@[j] <==> (old(vis)@[j] || eps_reach(
                p@,
                start as int,
                j,
            ))),
{
    let ghost old_vis = vis@;
    let ghost g = start as int;
    let mut wl: Vec<usize> = Vec::new();
    assert(eps_path(p@, g, g, 0));
    visit(p, Ghost(g), start, vis, &mut wl);
    assert(closed_except(p@, vis@, wl@)) by {
        assert forall|u: int|
            0 <= u < p.len() && #[trigger] vis@[u] && !wl@.contains(u as usize) implies succs_marked(
            p@,
            vis@,
            u,
        ) by {
            if old_vis[g] {
                assert(vis@ == old_vis);
            } else {
                assert(wl@[0] == start);
                assert(u != g);
                assert(succs_marked(p@, old_vis, u));
                lemma_wf_edges(p@, u);
            }
        }
    }
    while wl.len() > 0
        invariant
            wf_program(p@),
            vis.len() == p.len(),
            old_vis.len() == p.len(),
            0 <= g < p.len(),
            vis@[g],
            closed_except(p@, vis@, wl@),
            forall|k: int|
                0 <= k < wl.len() ==> (#[trigger] wl@[k]) < vis.len() && vis@[wl@[k] as int]
                    && eps_reach(p@, g, wl@[k] as int),
            forall|j: int|
                0 <= j < p.len() && #[trigger] vis@[j] ==> old_vis[j] || eps_reach(p@, g, j),
            forall|j: int| 0 <= j < p.len() && #[trigger] old_vis[j] ==> vis@[j],
        decreases 2 * count_unmarked(vis@) + wl.len(),
    {
        let ghost wl0 = wl@;
        let ghost vis0 = vis@;
        let v = wl.pop().unwrap();
        assert(wl0[wl0.len() - 1] == v);
        assert(wl@ =~= wl0.drop_last());
        proof {
            lemma_wf_edges(p@, v as int);
        }
        match p[v] {
            Instruction::Split(d) => {
                proof {
                    lemma_reach_extend(p@, g, v as int, v + 1);
                    lemma_reach_extend(p@, g, v as int, v + d);
                }
                visit(p, Ghost(g), v + 1, vis, &mut wl);
                visit(p, Ghost(g), v + d, vis, &mut wl);
            },
            Instruction::Jump(d) => {
                let t: usize = if d >= 0 {
                    v + d as usize
                } else {
                    v - ((-(d + 1)) as usize + 1)
                };
                proof {
                    lemma_reach_extend(p@, g, v as int, t as int);
                }
                visit(p, Ghost(g), t, vis, &mut wl);
            },
            _ => {},
        }
        assert(closed_except(p@, vis@, wl@)) by {
            assert forall|u: int|
                0 <= u < p.len() && #[trigger] vis@[u] && !wl@.contains(u as usize) implies succs_marked(
                p@,
                vis@,
                u,
            ) by {
                if u != v && vis0[u] {
                    if wl0.contains(u as usize) {
                        let k = choose|k: int| 0 <= k < wl0.len() && wl0[k] == u as usize;
                        assert(k != wl0.len() - 1);
                        assert(wl@[k] == u as usize);
                    }
                    assert(succs_marked(p@, vis0, u));
                    lemma_wf_edges(p@, u);
                }
            }
        }
    }
    proof {
        assert(wl@ =~= Seq::<usize>::empty());
        assert forall|j: int| 0 <= j < p.len() && eps_reach(p@, g, j) implies #[trigger] vis@[j] by {
            let n = choose|n: nat| eps_path(p@, g, j, n);
            lemma_closed_reach(p@, vis@, g, j, n);
        }
    }
}

/// Runs the program on `text` in lockstep: one marking of live instructions
/// per character read.
pub fn run(p: &Vec<Instruction>, text: &str) -> (r: bool)
    requires
        wf_program(p@),
    ensures
        r == accepts(p@, text@),
{
    let chars = chars_of(text);
    let n = p.len();
    let mut vis: Vec<bool> = vec![false; n];
    assert(closed_except(p@, vis@, Seq::empty()));
    add_closure(p, 0, &mut vis);
    proof {
        assert(text@.take(0) =~= Seq::<char>::empty());
        assert forall|j: int| 0 <= j < n implies (vis@[j] && is_stop(p@, j)) <==> active(
            p@,
            text@.take(0),
        ).contains(j) by {}
    }
    let mut i: usize = 0;
    while i < chars.len()
        invariant
            wf_program(p@),
            n == p.len(),
            chars@ == text@,
            i <= chars.len(),
            vis.len() == n,
            forall|j: int|
                0 <= j < n ==> ((#[trigger] vis@[j] && is_stop(p@, j)) <==> active(
                    p@,
                    text@.take(i as int),
                ).contains(j)),
        decreases chars.len() - i,
    {
        let c = chars[i];
        let mut next: Vec<bool> = vec![false; n];
        assert(closed_except(p@, next@, Seq::empty()));
        let mut t: usize = 0;
        while t < n
            invariant
                wf_program(p@),
                n == p.len(),
                vis.len() == n,
                next.len() == n,
                t <= n,
                closed_except(p@, next@, Seq::empty()),
                forall|j: int|
                    0 <= j < n ==> (#[trigger] next@[j] <==> exists|q: int|
                        0 <= q < t && vis@[q] && p@[q] == Instruction::Literal(c) && eps_reach(
                            p@,
                            q + 1,
                            j,
                        )),
            decreases n - t,
        {
            let fires = match p[t] {
                Instruction::Literal(e) => vis[t] && e == c,
                _ => false,
            };
            let ghost next0 = next@;
            if fires {
                proof {
                    lemma_wf_edges(p@, t as int);
                }
                add_closure(p, t + 1, &mut next);
            }
            assert forall|j: int| 0 <= j < n implies (#[trigger] next@[j] <==> exists|q: int|
                0 <= q < t + 1 && vis@[q] && p@[q] == Instruction::Literal(c) && eps_reach(
                    p@,
                    q + 1,
                    j,
                )) by {
                if next@[j] && !next0[j] {
                    assert(0 <= t < t + 1 && vis@[t as int] && p@[t as int] == Instruction::Literal(c)
                        && eps_reach(p@, t + 1, j));
                }
            }
            t = t + 1;
        }
        proof {
            let s = text@.take(i + 1);
            assert(s.drop_last() =~= text@.take(i as int));
            assert(s.last() == c);
            let prev = active(p@, text@.take(i as int));
            assert forall|j: int| 0 <= j < n implies (next@[j] && is_stop(p@, j)) <==> active(
                p@,
                s,
            ).contains(j) by {
                if next@[j] && is_stop(p@, j) {
                    let q = choose|q: int|
                        0 <= q < n && vis@[q] && p@[q] == Instruction::Literal(c) && eps_reach(
                            p@,
                            q + 1,
                            j,
                        );
                    assert(prev.contains(q));
                }
                if active(p@, s).contains(j) {
                    let q = choose|q: int|
                        prev.contains(q) && p@[q] == Instruction::Literal(c) && in_closure(
                            p@,
                            q + 1,
                            j,
                        );
                    assert(is_stop(p@, q));
                    assert(vis@[q]);
                }
            }
        }
        vis = next;
        i = i + 1;
    }
    proof {
        assert(text@.take(i as int) =~= text@);
        assert(is_stop(p@, n - 1));
    }
    vis[n - 1]
}

} // verus!
