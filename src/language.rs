use vstd::prelude::*;

use crate::compiler::{alt_fragment, cat_fragment, star_fragment};
use crate::program::{
    accepts, active, eps_path, eps_reach, eps_succ, fragment_closed, in_closure, is_stop, jump_target,
    split_target, Instruction,
};

verus! {

/// There is a run of `p` from `i` to `j` that reads exactly `x`: epsilon edges,
/// each character taken by a Literal equal to it, then epsilon edges again.
pub open spec fn runs(p: Seq<Instruction>, i: int, x: Seq<char>, j: int) -> bool
    decreases x.len(),
{
    if x.len() == 0 {
        eps_reach(p, i, j)
    } else {
        exists|t: int|
            #![trigger p[t]]
            0 <= t < p.len() && runs(p, i, x.drop_last(), t) && p[t] == Instruction::Literal(
                x.last(),
            ) && eps_reach(p, t + 1, j)
    }
}

/// The live threads after reading `x` are the waiting instructions that some
/// run from the entry reaches.
pub proof fn lemma_active_runs(p: Seq<Instruction>, x: Seq<char>, j: int)
    ensures
        active(p, x).contains(j) <==> is_stop(p, j) && runs(p, 0, x, j),
    decreases x.len(),
{
    if x.len() > 0 {
        let xs = x.drop_last();
        let prev = active(p, xs);
        if active(p, x).contains(j) {
            let t = choose|t: int|
                prev.contains(t) && p[t] == Instruction::Literal(x.last()) && in_closure(
                    p,
                    t + 1,
                    j,
                );
            lemma_active_runs(p, xs, t);
            assert(runs(p, 0, xs, t));
            assert(runs(p, 0, x, j));
        }
        if is_stop(p, j) && runs(p, 0, x, j) {
            let t = choose|t: int|
                0 <= t < p.len() && runs(p, 0, xs, t) && p[t] == Instruction::Literal(x.last())
                    && eps_reach(p, t + 1, j);
            lemma_active_runs(p, xs, t);
            assert(prev.contains(t));
        }
    }
}

/// A program accepts `x` exactly when a run reads `x` from the entry to the Match.
pub proof fn lemma_accepts_runs(p: Seq<Instruction>, x: Seq<char>)
    requires
        p.len() >= 1,
        p.last() == Instruction::Match,
    ensures
        accepts(p, x) <==> runs(p, 0, x, p.len() - 1),
{
    lemma_active_runs(p, x, p.len() - 1);
}

pub proof fn lemma_eps_path_trans(p: Seq<Instruction>, i: int, k: int, j: int, n: nat, m: nat)
    requires
        eps_path(p, i, k, n),
        eps_path(p, k, j, m),
    ensures
        eps_path(p, i, j, n + m),
    decreases n,
{
    if n > 0 {
        match p[i] {
            Instruction::Split(d) => {
                if eps_path(p, i + 1, k, (n - 1) as nat) {
                    lemma_eps_path_trans(p, i + 1, k, j, (n - 1) as nat, m);
                } else {
                    lemma_eps_path_trans(p, split_target(i, d), k, j, (n - 1) as nat, m);
                }
            },
            Instruction::Jump(d) => {
                lemma_eps_path_trans(p, jump_target(i, d), k, j, (n - 1) as nat, m);
            },
            _ => {},
        }
        assert(eps_path(p, i, j, n + m));
    }
}

pub proof fn lemma_eps_trans(p: Seq<Instruction>, i: int, k: int, j: int)
    requires
        eps_reach(p, i, k),
        eps_reach(p, k, j),
    ensures
        eps_reach(p, i, j),
{
    let n = choose|n: nat| eps_path(p, i, k, n);
    let m = choose|m: nat| eps_path(p, k, j, m);
    lemma_eps_path_trans(p, i, k, j, n, m);
}

/// Runs compose: reading `x` to `k`, then `y` from `k`, reads `x + y`.
pub proof fn lemma_runs_concat(
    p: Seq<Instruction>,
    i: int,
    x: Seq<char>,
    k: int,
    y: Seq<char>,
    j: int,
)
    requires
        runs(p, i, x, k),
        runs(p, k, y, j),
    ensures
        runs(p, i, x + y, j),
    decreases y.len(),
{
    if y.len() == 0 {
        assert(x + y =~= x);
        if x.len() == 0 {
            lemma_eps_trans(p, i, k, j);
        } else {
            let t = choose|t: int|
                0 <= t < p.len() && runs(p, i, x.drop_last(), t) && p[t] == Instruction::Literal(
                    x.last(),
                ) && eps_reach(p, t + 1, k);
            lemma_eps_trans(p, t + 1, k, j);
            assert(runs(p, i, x.drop_last(), t));
            assert(runs(p, i, x, j));
        }
    } else {
        let t = choose|t: int|
            0 <= t < p.len() && runs(p, k, y.drop_last(), t) && p[t] == Instruction::Literal(
                y.last(),
            ) && eps_reach(p, t + 1, j);
        lemma_runs_concat(p, i, x, k, y.drop_last(), t);
        assert((x + y).drop_last() =~= x + y.drop_last());
        assert(runs(p, i, (x + y).drop_last(), t));
    }
}

/// Nothing leaves the Match: a run from it reads nothing and stays there.
pub proof fn lemma_runs_from_match(p: Seq<Instruction>, m: int, x: Seq<char>, j: int)
    requires
        0 <= m < p.len(),
        p[m] == Instruction::Match,
        runs(p, m, x, j),
    ensures
        x.len() == 0,
        j == m,
    decreases x.len(),
{
    if x.len() == 0 {
        let n = choose|n: nat| eps_path(p, m, j, n);
        assert(n == 0);
    } else {
        let t = choose|t: int|
            0 <= t < p.len() && runs(p, m, x.drop_last(), t) && p[t] == Instruction::Literal(
                x.last(),
            ) && eps_reach(p, t + 1, j);
        lemma_runs_from_match(p, m, x.drop_last(), t);
    }
}

/// A run that leaves a Split or a Jump starts with one of its epsilon edges.
pub proof fn lemma_runs_first_step(p: Seq<Instruction>, i: int, x: Seq<char>, j: int)
    requires
        0 <= i < p.len(),
        p[i] is Split || p[i] is Jump,
        runs(p, i, x, j),
        x.len() > 0 || j != i,
    ensures
        match p[i] {
            Instruction::Split(d) => runs(p, i + 1, x, j) || runs(p, split_target(i, d), x, j),
            Instruction::Jump(d) => runs(p, jump_target(i, d), x, j),
            _ => true,
        },
    decreases x.len(),
{
    if x.len() == 0 {
        let n = choose|n: nat| eps_path(p, i, j, n);
        assert(n > 0);
        match p[i] {
            Instruction::Split(d) => {
                assert(eps_path(p, i + 1, j, (n - 1) as nat) || eps_path(
                    p,
                    split_target(i, d),
                    j,
                    (n - 1) as nat,
                ));
                if eps_path(p, i + 1, j, (n - 1) as nat) {
                    assert(eps_reach(p, i + 1, j));
                } else {
                    assert(eps_reach(p, split_target(i, d), j));
                }
            },
            Instruction::Jump(d) => {
                assert(eps_path(p, jump_target(i, d), j, (n - 1) as nat));
                assert(eps_reach(p, jump_target(i, d), j));
            },
            _ => {},
        }
    } else {
        let xs = x.drop_last();
        let t = choose|t: int|
            0 <= t < p.len() && runs(p, i, xs, t) && p[t] == Instruction::Literal(x.last())
                && eps_reach(p, t + 1, j);
        assert(t != i);
        lemma_runs_first_step(p, i, xs, t);
        match p[i] {
            Instruction::Split(d) => {
                if runs(p, i + 1, xs, t) {
                    assert(runs(p, i + 1, x, j));
                } else {
                    assert(runs(p, split_target(i, d), x, j));
                }
            },
            Instruction::Jump(d) => {
                assert(runs(p, jump_target(i, d), x, j));
            },
            _ => {},
        }
    }
}

/// The fragment `f` stands in `p` from index `o` on, with one more
/// instruction after it.
pub open spec fn embeds(p: Seq<Instruction>, o: int, f: Seq<Instruction>) -> bool {
    &&& 0 <= o
    &&& o + f.len() < p.len()
    &&& forall|i: int| 0 <= i < f.len() ==> #[trigger] p[o + i] == f[i]
}

/// The program made of the fragment `f` alone.
pub open spec fn finished(f: Seq<Instruction>) -> Seq<Instruction> {
    f.push(Instruction::Match)
}

pub proof fn lemma_eps_embed_fwd(
    p: Seq<Instruction>,
    o: int,
    f: Seq<Instruction>,
    a: int,
    b: int,
    n: nat,
)
    requires
        embeds(p, o, f),
        fragment_closed(f),
        0 <= a <= f.len(),
        eps_path(finished(f), a, b, n),
    ensures
        0 <= b <= f.len(),
        eps_path(p, o + a, o + b, n),
    decreases n,
{
    let m = finished(f);
    if n > 0 {
        assert(m[a] == f[a]);
        assert(p[o + a] == f[a]);
        match f[a] {
            Instruction::Split(d) => {
                if eps_path(m, a + 1, b, (n - 1) as nat) {
                    lemma_eps_embed_fwd(p, o, f, a + 1, b, (n - 1) as nat);
                } else {
                    lemma_eps_embed_fwd(p, o, f, split_target(a, d), b, (n - 1) as nat);
                }
            },
            Instruction::Jump(d) => {
                lemma_eps_embed_fwd(p, o, f, jump_target(a, d), b, (n - 1) as nat);
            },
            _ => {},
        }
    }
}

pub proof fn lemma_eps_embed_bwd(
    p: Seq<Instruction>,
    o: int,
    f: Seq<Instruction>,
    a: int,
    j: int,
    n: nat,
)
    requires
        embeds(p, o, f),
        fragment_closed(f),
        0 <= a <= f.len(),
        eps_path(p, o + a, j, n),
    ensures
        (o <= j <= o + f.len() && eps_path(finished(f), a, j - o, n)) || (eps_reach(
            finished(f),
            a,
            f.len() as int,
        ) && eps_reach(p, o + f.len(), j)),
    decreases n,
{
    let m = finished(f);
    if n == 0 {
    } else if a == f.len() {
        assert(eps_path(m, a, a, 0));
    } else {
        assert(m[a] == f[a]);
        assert(p[o + a] == f[a]);
        let next = match f[a] {
            Instruction::Split(d) => if eps_path(p, o + a + 1, j, (n - 1) as nat) {
                a + 1
            } else {
                split_target(a, d)
            },
            Instruction::Jump(d) => jump_target(a, d),
            _ => a,
        };
        assert(eps_path(p, o + next, j, (n - 1) as nat));
        lemma_eps_embed_bwd(p, o, f, next, j, (n - 1) as nat);
        if o <= j <= o + f.len() && eps_path(m, next, j - o, (n - 1) as nat) {
            assert(eps_path(m, a, j - o, n));
        } else {
            let k = choose|k: nat| eps_path(m, next, f.len() as int, k);
            assert(eps_path(m, a, f.len() as int, k + 1));
        }
    }
}

pub proof fn lemma_runs_embed_fwd(
    p: Seq<Instruction>,
    o: int,
    f: Seq<Instruction>,
    a: int,
    x: Seq<char>,
    b: int,
)
    requires
        embeds(p, o, f),
        fragment_closed(f),
        0 <= a <= f.len(),
        runs(finished(f), a, x, b),
    ensures
        0 <= b <= f.len(),
        runs(p, o + a, x, o + b),
    decreases x.len(),
{
    let m = finished(f);
    if x.len() == 0 {
        let n = choose|n: nat| eps_path(m, a, b, n);
        lemma_eps_embed_fwd(p, o, f, a, b, n);
        assert(eps_path(p, o + a, o + b, n));
    } else {
        let t = choose|t: int|
            0 <= t < m.len() && runs(m, a, x.drop_last(), t) && m[t] == Instruction::Literal(
                x.last(),
            ) && eps_reach(m, t + 1, b);
        lemma_runs_embed_fwd(p, o, f, a, x.drop_last(), t);
        assert(t < f.len());
        assert(m[t] == f[t]);
        assert(p[o + t] == f[t]);
        let u = t + 1;
        let n = choose|n: nat| eps_path(m, u, b, n);
        lemma_eps_embed_fwd(p, o, f, t + 1, b, n);
        assert(eps_path(p, o + t + 1, o + b, n));
        assert(eps_reach(p, o + t + 1, o + b));
    }
}

pub proof fn lemma_runs_embed_bwd(
    p: Seq<Instruction>,
    o: int,
    f: Seq<Instruction>,
    a: int,
    x: Seq<char>,
    j: int,
)
    requires
        embeds(p, o, f),
        fragment_closed(f),
        0 <= a <= f.len(),
        runs(p, o + a, x, j),
    ensures
        (o <= j <= o + f.len() && runs(finished(f), a, x, j - o)) || exists|k: int|
            0 <= k <= x.len() && runs(finished(f), a, x.take(k), f.len() as int) && runs(
                p,
                o + f.len(),
                #[trigger] x.skip(k),
                j,
            ),
    decreases x.len(),
{
    let m = finished(f);
    let e = o + f.len();
    if x.len() == 0 {
        let start = o + a;
        let n = choose|n: nat| eps_path(p, start, j, n);
        lemma_eps_embed_bwd(p, o, f, a, j, n);
        if o <= j <= e && eps_path(m, a, j - o, n) {
            assert(eps_reach(m, a, j - o));
        } else {
            assert(x.take(0) =~= x);
            assert(x.skip(0) =~= x);
        }
    } else {
        let xs = x.drop_last();
        let c = x.last();
        let t = choose|t: int|
            0 <= t < p.len() && runs(p, o + a, xs, t) && p[t] == Instruction::Literal(c)
                && eps_reach(p, t + 1, j);
        lemma_runs_embed_bwd(p, o, f, a, xs, t);
        if o <= t <= e && runs(m, a, xs, t - o) {
            if t == e {
                let k = xs.len() as int;
                assert(x.take(k) =~= xs);
                assert(x.skip(k).drop_last() =~= Seq::<char>::empty());
                assert(x.skip(k).last() == c);
                assert(eps_path(p, e, e, 0));
                assert(runs(p, e, x.skip(k).drop_last(), t));
                assert(runs(p, e, x.skip(k), j));
            } else {
                assert(m[t - o] == f[t - o]);
                assert(p[o + (t - o)] == f[t - o]);
                let u = t + 1;
                let n = choose|n: nat| eps_path(p, u, j, n);
                lemma_eps_embed_bwd(p, o, f, t - o + 1, j, n);
                if o <= j <= e && eps_path(m, t - o + 1, j - o, n) {
                    assert(eps_reach(m, t - o + 1, j - o));
                    assert(runs(m, a, x, j - o));
                } else {
                    let k = x.len() as int;
                    assert(x.take(k) =~= x);
                    assert(x.skip(k) =~= Seq::<char>::empty());
                    assert(runs(m, a, x, f.len() as int));
                    assert(runs(p, e, x.skip(k), j));
                }
            }
        } else {
            let k = choose|k: int|
                0 <= k <= xs.len() && runs(m, a, xs.take(k), f.len() as int) && runs(
                    p,
                    e,
                    #[trigger] xs.skip(k),
                    t,
                );
            assert(x.take(k) =~= xs.take(k));
            assert(x.skip(k).drop_last() =~= xs.skip(k));
            assert(x.skip(k).last() == c);
            assert(runs(p, e, x.skip(k), j));
        }
    }
}

/// A run that ends outside the fragment's interior leaves it through its exit.
pub proof fn lemma_runs_exit(
    p: Seq<Instruction>,
    o: int,
    f: Seq<Instruction>,
    a: int,
    x: Seq<char>,
    j: int,
) -> (k: int)
    requires
        embeds(p, o, f),
        fragment_closed(f),
        0 <= a <= f.len(),
        runs(p, o + a, x, j),
        !(o <= j < o + f.len()),
    ensures
        0 <= k <= x.len(),
        runs(finished(f), a, x.take(k), f.len() as int),
        runs(p, o + f.len(), x.skip(k), j),
{
    lemma_runs_embed_bwd(p, o, f, a, x, j);
    if o <= j <= o + f.len() && runs(finished(f), a, x, j - o) {
        let k = x.len() as int;
        assert(x.take(k) =~= x);
        assert(x.skip(k) =~= Seq::<char>::empty());
        assert(eps_path(p, j, j, 0));
        k
    } else {
        choose|k: int|
            0 <= k <= x.len() && runs(finished(f), a, x.take(k), f.len() as int) && runs(
                p,
                o + f.len(),
                #[trigger] x.skip(k),
                j,
            )
    }
}

/// One epsilon edge is a run that reads nothing.
pub proof fn lemma_eps_edge(p: Seq<Instruction>, i: int, j: int)
    requires
        eps_succ(p, i, j),
    ensures
        runs(p, i, Seq::empty(), j),
{
    assert(eps_path(p, j, j, 0));
    assert(eps_path(p, i, j, 1));
}

/// A run from the Match of a program that must end at that Match reads
/// nothing more: the part of `x` after `k` is empty.
proof fn lemma_rest_is_empty(p: Seq<Instruction>, x: Seq<char>, k: int)
    requires
        p.len() >= 1,
        p.last() == Instruction::Match,
        0 <= k <= x.len(),
        runs(p, p.len() - 1, x.skip(k), p.len() - 1),
    ensures
        x.take(k) =~= x,
{
    lemma_runs_from_match(p, p.len() - 1, x.skip(k), p.len() - 1);
}

/// Alternation accepts the union of what its two operands accept.
pub proof fn lemma_alt_language(l: Seq<Instruction>, s: Seq<Instruction>, x: Seq<char>)
    requires
        fragment_closed(l),
        fragment_closed(s),
        l.len() + s.len() + 2 <= isize::MAX,
    ensures
        accepts(finished(alt_fragment(l, s)), x) <==> accepts(finished(l), x) || accepts(
            finished(s),
            x,
        ),
{
    let a = finished(alt_fragment(l, s));
    let ll = l.len() as int;
    let n = a.len() - 1;
    assert(n == ll + s.len() + 2);
    let os = ll + 2;
    assert forall|i: int| 0 <= i < l.len() implies #[trigger] a[1 + i] == l[i] by {}
    assert forall|i: int| 0 <= i < s.len() implies #[trigger] a[os + i] == s[i] by {}
    assert(embeds(a, 1, l));
    assert(embeds(a, os, s));
    assert(a[0] == Instruction::Split((l.len() + 2) as usize));
    assert(a[ll + 1] == Instruction::Jump((s.len() + 1) as isize));
    assert(a[n] == Instruction::Match);
    lemma_accepts_runs(a, x);
    lemma_accepts_runs(finished(l), x);
    lemma_accepts_runs(finished(s), x);
    let e: Seq<char> = Seq::empty();
    assert(e + x =~= x);
    assert(x + e =~= x);
    if runs(a, 0, x, n) {
        lemma_runs_first_step(a, 0, x, n);
        if runs(a, 1, x, n) {
            let k = lemma_runs_exit(a, 1, l, 0, x, n);
            lemma_runs_first_step(a, ll + 1, x.skip(k), n);
            lemma_rest_is_empty(a, x, k);
        } else {
            let k = lemma_runs_exit(a, os, s, 0, x, n);
            lemma_rest_is_empty(a, x, k);
        }
    }
    if accepts(finished(l), x) {
        lemma_runs_embed_fwd(a, 1, l, 0, x, ll);
        lemma_eps_edge(a, 0, 1);
        lemma_eps_edge(a, ll + 1, n);
        lemma_runs_concat(a, 0, e, 1, x, ll + 1);
        lemma_runs_concat(a, 0, x, ll + 1, e, n);
    }
    if accepts(finished(s), x) {
        lemma_runs_embed_fwd(a, os, s, 0, x, s.len() as int);
        lemma_eps_edge(a, 0, os);
        lemma_runs_concat(a, 0, e, os, x, n);
    }
}

/// Concatenation accepts exactly the texts that split into a part accepted by
/// its first operand followed by a part accepted by its second.
pub proof fn lemma_cat_language(f: Seq<Instruction>, s: Seq<Instruction>, x: Seq<char>)
    requires
        fragment_closed(f),
        fragment_closed(s),
    ensures
        accepts(finished(cat_fragment(f, s)), x) <==> exists|k: int|
            0 <= k <= x.len() && accepts(finished(f), x.take(k)) && accepts(
                finished(s),
                #[trigger] x.skip(k),
            ),
{
    let a = finished(cat_fragment(f, s));
    let n = a.len() - 1;
    let os = f.len() as int;
    assert forall|i: int| 0 <= i < f.len() implies #[trigger] a[0 + i] == f[i] by {}
    assert forall|i: int| 0 <= i < s.len() implies #[trigger] a[os + i] == s[i] by {}
    assert(embeds(a, 0, f));
    assert(embeds(a, os, s));
    assert(a[n] == Instruction::Match);
    lemma_accepts_runs(a, x);
    if runs(a, 0, x, n) {
        let k = lemma_runs_exit(a, 0, f, 0, x, n);
        let y = x.skip(k);
        let k2 = lemma_runs_exit(a, os, s, 0, y, n);
        lemma_rest_is_empty(a, y, k2);
        lemma_accepts_runs(finished(f), x.take(k));
        lemma_accepts_runs(finished(s), y);
    }
    if exists|k: int|
        0 <= k <= x.len() && accepts(finished(f), x.take(k)) && accepts(
            finished(s),
            #[trigger] x.skip(k),
        ) {
        let k = choose|k: int|
            0 <= k <= x.len() && accepts(finished(f), x.take(k)) && accepts(
                finished(s),
                #[trigger] x.skip(k),
            );
        lemma_accepts_runs(finished(f), x.take(k));
        lemma_accepts_runs(finished(s), x.skip(k));
        lemma_runs_embed_fwd(a, 0, f, 0, x.take(k), f.len() as int);
        lemma_runs_embed_fwd(a, os, s, 0, x.skip(k), s.len() as int);
        lemma_runs_concat(a, 0, x.take(k), os, x.skip(k), n);
        assert(x.take(k) + x.skip(k) =~= x);
    }
}

/// `x` is a concatenation of zero or more texts, each accepted by the
/// fragment `f`.
pub open spec fn in_star(f: Seq<Instruction>, x: Seq<char>) -> bool {
    exists|pieces: Seq<Seq<char>>|
        #[trigger] pieces.flatten() == x && forall|i: int|
            0 <= i < pieces.len() ==> accepts(finished(f), #[trigger] pieces[i])
}

/// The facts about the loop `star_fragment(f)` that its proofs use.
proof fn lemma_star_shape(f: Seq<Instruction>)
    requires
        fragment_closed(f),
        f.len() + 2 <= isize::MAX,
    ensures
        ({
            let p = finished(star_fragment(f));
            let l = f.len() as int;
            &&& p.len() == l + 3
            &&& embeds(p, 1, f)
            &&& p[0] == Instruction::Split((l + 2) as usize)
            &&& split_target(0, (l + 2) as usize) == l + 2
            &&& p[l + 1] == Instruction::Jump((-(l + 1)) as isize)
            &&& jump_target(l + 1, (-(l + 1)) as isize) == 0
            &&& p[l + 2] == Instruction::Match
            &&& p.last() == Instruction::Match
        }),
{
    let p = finished(star_fragment(f));
    assert forall|i: int| 0 <= i < f.len() implies #[trigger] p[1 + i] == f[i] by {}
}

/// Epsilon paths of the loop towards an instruction `t` of its body either pass
/// through the loop head, or stay in the body.
proof fn lemma_star_eps_into_body(f: Seq<Instruction>, i: int, t: int, n: nat)
    requires
        fragment_closed(f),
        f.len() + 2 <= isize::MAX,
        0 <= i <= f.len() + 1,
        1 <= t <= f.len(),
        eps_path(finished(star_fragment(f)), i, t, n),
    ensures
        (eps_reach(finished(star_fragment(f)), i, 0) && eps_reach(finished(f), 0, t - 1)) || (1
            <= i <= f.len() && eps_path(finished(f), i - 1, t - 1, n)),
    decreases n,
{
    let p = finished(star_fragment(f));
    let m = finished(f);
    let l = f.len() as int;
    lemma_star_shape(f);
    if n == 0 {
    } else if i == 0 {
        if eps_path(p, 1, t, (n - 1) as nat) {
            lemma_star_eps_into_body(f, 1, t, (n - 1) as nat);
            assert(eps_path(p, 0, 0, 0));
            if !eps_reach(m, 0, t - 1) {
                assert(eps_path(m, 0, t - 1, (n - 1) as nat));
            }
        } else {
            assert(eps_path(p, l + 2, t, (n - 1) as nat));
            assert(false);
        }
    } else if i == l + 1 {
        assert(eps_path(p, 0, t, (n - 1) as nat));
        lemma_star_eps_into_body(f, 0, t, (n - 1) as nat);
        lemma_eps_edge(p, l + 1, 0);
        lemma_eps_trans(p, l + 1, 0, 0);
    } else {
        assert(p[1 + (i - 1)] == f[i - 1]);
        assert(m[i - 1] == f[i - 1]);
        let next = match f[i - 1] {
            Instruction::Split(d) => if eps_path(p, i + 1, t, (n - 1) as nat) {
                i + 1
            } else {
                split_target(i, d)
            },
            Instruction::Jump(d) => jump_target(i, d),
            _ => i,
        };
        assert(eps_path(p, next, t, (n - 1) as nat));
        lemma_star_eps_into_body(f, next, t, (n - 1) as nat);
        if eps_reach(p, next, 0) && eps_reach(m, 0, t - 1) {
            lemma_eps_edge(p, i, next);
            lemma_eps_trans(p, i, next, 0);
        } else {
            assert(eps_path(m, i - 1, t - 1, n));
        }
    }
}

/// A run of the loop that reads `y` and ends in the body splits `y` into a
/// part read from the loop head back to it, and a part read inside the body.
proof fn lemma_star_last_entry(f: Seq<Instruction>, y: Seq<char>, t: int) -> (k: int)
    requires
        fragment_closed(f),
        f.len() + 2 <= isize::MAX,
        1 <= t <= f.len(),
        runs(finished(star_fragment(f)), 0, y, t),
    ensures
        0 <= k <= y.len(),
        runs(finished(star_fragment(f)), 0, y.take(k), 0),
        runs(finished(f), 0, y.skip(k), t - 1),
    decreases y.len(),
{
    let p = finished(star_fragment(f));
    let m = finished(f);
    let l = f.len() as int;
    lemma_star_shape(f);
    if y.len() == 0 {
        let n = choose|n: nat| eps_path(p, 0, t, n);
        lemma_star_eps_into_body(f, 0, t, n);
        assert(y.take(0) =~= y);
        assert(y.skip(0) =~= y);
        assert(eps_path(p, 0, 0, 0));
        0
    } else {
        let ys = y.drop_last();
        let c = y.last();
        let u = choose|u: int|
            0 <= u < p.len() && runs(p, 0, ys, u) && p[u] == Instruction::Literal(c) && eps_reach(
                p,
                u + 1,
                t,
            );
        assert(1 <= u <= l) by {
            if u > l {
                assert(u == l + 1 || u == l + 2);
            }
        }
        assert(p[1 + (u - 1)] == f[u - 1]);
        assert(m[u - 1] == f[u - 1]);
        let k0 = lemma_star_last_entry(f, ys, u);
        let v = u + 1;
        let n = choose|n: nat| eps_path(p, v, t, n);
        lemma_star_eps_into_body(f, v, t, n);
        if eps_reach(p, v, 0) && eps_reach(m, 0, t - 1) {
            let k = y.len() as int;
            assert(y.take(k) =~= y);
            assert(y.skip(k) =~= Seq::<char>::empty());
            assert(runs(p, 0, y, 0));
            k
        } else {
            assert(eps_reach(m, u, t - 1));
            assert(y.take(k0) =~= ys.take(k0));
            assert(y.skip(k0).drop_last() =~= ys.skip(k0));
            assert(y.skip(k0).last() == c);
            assert(runs(m, 0, y.skip(k0), t - 1));
            k0
        }
    }
}

/// What the loop reads from its head to its head or to its Match is a
/// concatenation of texts accepted by the body.
proof fn lemma_star_runs_split(f: Seq<Instruction>, x: Seq<char>, j: int)
    requires
        fragment_closed(f),
        f.len() + 2 <= isize::MAX,
        j == 0 || j == f.len() + 2,
        runs(finished(star_fragment(f)), 0, x, j),
    ensures
        in_star(f, x),
    decreases x.len(),
{
    let p = finished(star_fragment(f));
    let m = finished(f);
    let l = f.len() as int;
    lemma_star_shape(f);
    if x.len() == 0 {
        let none: Seq<Seq<char>> = Seq::empty();
        assert(none.flatten() =~= x);
    } else {
        let xs = x.drop_last();
        let c = x.last();
        let t = choose|t: int|
            0 <= t < p.len() && runs(p, 0, xs, t) && p[t] == Instruction::Literal(c) && eps_reach(
                p,
                t + 1,
                j,
            );
        assert(1 <= t <= l) by {
            if t > l {
                assert(t == l + 1 || t == l + 2);
            }
        }
        assert(p[1 + (t - 1)] == f[t - 1]);
        assert(m[t - 1] == f[t - 1]);
        let k = lemma_star_last_entry(f, xs, t);
        let v = t + 1;
        let n = choose|n: nat| eps_path(p, v, j, n);
        lemma_eps_embed_bwd(p, 1, f, t, j, n);
        let piece = x.skip(k);
        assert(piece.drop_last() =~= xs.skip(k));
        assert(piece.last() == c);
        assert(runs(m, 0, piece, l));
        lemma_accepts_runs(m, piece);
        assert(x.take(k) =~= xs.take(k));
        lemma_star_runs_split(f, x.take(k), 0);
        let ps = choose|ps: Seq<Seq<char>>|
            #[trigger] ps.flatten() == x.take(k) && forall|i: int|
                0 <= i < ps.len() ==> accepts(finished(f), #[trigger] ps[i]);
        let qs = ps.push(piece);
        ps.lemma_flatten_push(piece);
        assert(x.take(k) + piece =~= x);
        assert forall|i: int| 0 <= i < qs.len() implies accepts(finished(f), #[trigger] qs[i]) by {
            if i < ps.len() {
                assert(qs[i] == ps[i]);
            }
        }
        assert(qs.flatten() == x);
    }
}

/// Every concatenation of texts accepted by the body is read by the loop
/// from its head back to its head.
proof fn lemma_star_runs_join(f: Seq<Instruction>, pieces: Seq<Seq<char>>)
    requires
        fragment_closed(f),
        f.len() + 2 <= isize::MAX,
        forall|i: int| 0 <= i < pieces.len() ==> accepts(finished(f), #[trigger] pieces[i]),
    ensures
        runs(finished(star_fragment(f)), 0, pieces.flatten(), 0),
    decreases pieces.len(),
{
    let p = finished(star_fragment(f));
    let m = finished(f);
    let l = f.len() as int;
    lemma_star_shape(f);
    if pieces.len() == 0 {
        assert(eps_path(p, 0, 0, 0));
    } else {
        let ps = pieces.drop_last();
        let q = pieces.last();
        assert forall|i: int| 0 <= i < ps.len() implies accepts(finished(f), #[trigger] ps[i]) by {
            assert(ps[i] == pieces[i]);
        }
        lemma_star_runs_join(f, ps);
        assert(accepts(m, pieces[pieces.len() - 1]));
        lemma_accepts_runs(m, q);
        lemma_runs_embed_fwd(p, 1, f, 0, q, l);
        let e: Seq<char> = Seq::empty();
        lemma_eps_edge(p, 0, 1);
        lemma_eps_edge(p, l + 1, 0);
        lemma_runs_concat(p, 0, e, 1, q, l + 1);
        assert(e + q =~= q);
        lemma_runs_concat(p, 0, q, l + 1, e, 0);
        assert(q + e =~= q);
        lemma_runs_concat(p, 0, ps.flatten(), 0, q, 0);
        ps.lemma_flatten_push(q);
        assert(ps.push(q) =~= pieces);
    }
}

/// Repetition accepts exactly the concatenations of zero or more texts that
/// its operand accepts.
pub proof fn lemma_star_language(f: Seq<Instruction>, x: Seq<char>)
    requires
        fragment_closed(f),
        f.len() + 2 <= isize::MAX,
    ensures
        accepts(finished(star_fragment(f)), x) <==> in_star(f, x),
{
    let p = finished(star_fragment(f));
    let l = f.len() as int;
    lemma_star_shape(f);
    lemma_accepts_runs(p, x);
    if runs(p, 0, x, l + 2) {
        lemma_star_runs_split(f, x, l + 2);
    }
    if in_star(f, x) {
        let ps = choose|ps: Seq<Seq<char>>|
            #[trigger] ps.flatten() == x && forall|i: int|
                0 <= i < ps.len() ==> accepts(finished(f), #[trigger] ps[i]);
        lemma_star_runs_join(f, ps);
        lemma_eps_edge(p, 0, l + 2);
        lemma_runs_concat(p, 0, x, 0, Seq::empty(), l + 2);
        assert(x + Seq::<char>::empty() =~= x);
    }
}

} // verus!
