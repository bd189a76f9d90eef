use vstd::prelude::*;

use crate::program::{chars_of, fragment_closed, wf_program, Instruction};

verus! {

/// Why a postfix pattern could not be compiled.
#[derive(Debug, Clone, Copy, PartialEq, Eq, Structural)]
pub enum MalformedPattern {
    /// An operator found fewer operands on the stack than it takes.
    MissingOperand,
    /// The whole pattern left zero or several operands on the stack.
    UnbalancedExpression,
}

/// `l|s`: a Split that enters `l` or skips to `s`, then `l`, a Jump over `s`, then `s`.
pub open spec fn alt_fragment(l: Seq<Instruction>, s: Seq<Instruction>) -> Seq<Instruction> {
    seq![Instruction::Split((l.len() + 2) as usize)] + l + seq![
        Instruction::Jump((s.len() + 1) as isize),
    ] + s
}

/// `f*`: a Split that enters `f` or leaves the loop, then `f`, then a Jump back
/// to the Split.
pub open spec fn star_fragment(f: Seq<Instruction>) -> Seq<Instruction> {
    seq![Instruction::Split((f.len() + 2) as usize)] + f + seq![
        Instruction::Jump((-(f.len() + 1)) as isize),
    ]
}

/// `f.s`: `f` followed by `s`.
pub open spec fn cat_fragment(f: Seq<Instruction>, s: Seq<Instruction>) -> Seq<Instruction> {
    f + s
}

/// One character of the pattern applied to the operand stack; `None` when an
/// operator finds too few operands.
pub open spec fn push_char(st: Seq<Seq<Instruction>>, c: char) -> Option<Seq<Seq<Instruction>>> {
    let n = st.len();
    if c == '|' {
        if n < 2 {
            None
        } else {
            Some(st.subrange(0, n - 2).push(alt_fragment(st[n - 2], st[n - 1])))
        }
    } else if c == '*' {
        if n < 1 {
            None
        } else {
            Some(st.drop_last().push(star_fragment(st[n - 1])))
        }
    } else if c == '.' {
        if n < 2 {
            None
        } else {
            Some(st.subrange(0, n - 2).push(cat_fragment(st[n - 2], st[n - 1])))
        }
    } else {
        Some(st.push(seq![Instruction::Literal(c)]))
    }
}

/// The operand stack after the whole of `p` has been read.
pub open spec fn operand_stack(p: Seq<char>) -> Option<Seq<Seq<Instruction>>>
    decreases p.len(),
{
    if p.len() == 0 {
        Some(Seq::empty())
    } else {
        match operand_stack(p.drop_last()) {
            None => None,
            Some(st) => push_char(st, p.last()),
        }
    }
}

/// The program that the postfix pattern `p` compiles to, or why it does not.
pub open spec fn compiled(p: Seq<char>) -> Result<Seq<Instruction>, MalformedPattern> {
    match operand_stack(p) {
        None => Err(MalformedPattern::MissingOperand),
        Some(st) => if st.len() == 1 {
            Ok(st[0].push(Instruction::Match))
        } else {
            Err(MalformedPattern::UnbalancedExpression)
        },
    }
}

/// Total number of instructions on an operand stack.
pub open spec fn stack_size(st: Seq<Seq<Instruction>>) -> int
    decreases st.len(),
{
    if st.len() == 0 {
        0
    } else {
        stack_size(st.drop_last()) + st.last().len()
    }
}

pub open spec fn views(st: Seq<Vec<Instruction>>) -> Seq<Seq<Instruction>> {
    st.map_values(|v: Vec<Instruction>| v@)
}

/// Patterns short enough that every offset fits in an `isize`.
pub open spec fn pattern_fits(p: Seq<char>) -> bool {
    2 * p.len() + 2 <= isize::MAX
}

pub proof fn lemma_stack_size_push(st: Seq<Seq<Instruction>>, f: Seq<Instruction>)
    ensures
        stack_size(st.push(f)) == stack_size(st) + f.len(),
{
    assert(st.push(f).drop_last() =~= st);
}

pub proof fn lemma_stack_size_nonneg(st: Seq<Seq<Instruction>>)
    ensures
        stack_size(st) >= 0,
    decreases st.len(),
{
    if st.len() > 0 {
        lemma_stack_size_nonneg(st.drop_last());
    }
}

/// Once an operator has lacked operands, every longer pattern fails too.
pub proof fn lemma_failure_persists(p: Seq<char>, i: int, j: int)
    requires
        0 <= i <= j <= p.len(),
        operand_stack(p.take(i)) is None,
    ensures
        operand_stack(p.take(j)) is None,
    decreases j - i,
{
    if j > i {
        lemma_failure_persists(p, i, j - 1);
        assert(p.take(j).drop_last() =~= p.take(j - 1));
    }
}

pub proof fn lemma_alt_closed(l: Seq<Instruction>, s: Seq<Instruction>)
    requires
        fragment_closed(l),
        fragment_closed(s),
        l.len() + s.len() + 2 <= isize::MAX,
    ensures
        fragment_closed(alt_fragment(l, s)),
{
    let a = alt_fragment(l, s);
    assert forall|i: int| 0 <= i < a.len() implies match #[trigger] a[i] {
        Instruction::Literal(_) => true,
        Instruction::Split(d) => 0 <= i + d <= a.len(),
        Instruction::Jump(d) => 0 <= i + d <= a.len(),
        Instruction::Match => false,
    } by {
        if 1 <= i <= l.len() {
            assert(a[i] == l[i - 1]);
        } else if i > l.len() + 1 {
            assert(a[i] == s[i - l.len() - 2]);
        }
    }
}

pub proof fn lemma_star_closed(f: Seq<Instruction>)
    requires
        fragment_closed(f),
        f.len() + 2 <= isize::MAX,
    ensures
        fragment_closed(star_fragment(f)),
{
    let a = star_fragment(f);
    assert forall|i: int| 0 <= i < a.len() implies match #[trigger] a[i] {
        Instruction::Literal(_) => true,
        Instruction::Split(d) => 0 <= i + d <= a.len(),
        Instruction::Jump(d) => 0 <= i + d <= a.len(),
        Instruction::Match => false,
    } by {
        if 1 <= i <= f.len() {
            assert(a[i] == f[i - 1]);
        }
    }
}

pub proof fn lemma_cat_closed(f: Seq<Instruction>, s: Seq<Instruction>)
    requires
        fragment_closed(f),
        fragment_closed(s),
    ensures
        fragment_closed(cat_fragment(f, s)),
{
    let a = cat_fragment(f, s);
    assert forall|i: int| 0 <= i < a.len() implies match #[trigger] a[i] {
        Instruction::Literal(_) => true,
        Instruction::Split(d) => 0 <= i + d <= a.len(),
        Instruction::Jump(d) => 0 <= i + d <= a.len(),
        Instruction::Match => false,
    } by {
        if i >= f.len() {
            assert(a[i] == s[i - f.len()]);
        }
    }
}

/// The operand stack after `q` has been read, starting from `st`.
pub open spec fn stack_after(st: Seq<Seq<Instruction>>, q: Seq<char>) -> Option<
    Seq<Seq<Instruction>>,
>
    decreases q.len(),
{
    if q.len() == 0 {
        Some(st)
    } else {
        match stack_after(st, q.drop_last()) {
            None => None,
            Some(s2) => push_char(s2, q.last()),
        }
    }
}

pub proof fn lemma_operand_stack_from_empty(p: Seq<char>)
    ensures
        operand_stack(p) == stack_after(Seq::empty(), p),
    decreases p.len(),
{
    if p.len() > 0 {
        lemma_operand_stack_from_empty(p.drop_last());
    }
}

/// Reading `p + q` is reading `p`, then `q` from where `p` left the stack.
pub proof fn lemma_stack_after_concat(st: Seq<Seq<Instruction>>, p: Seq<char>, q: Seq<char>)
    ensures
        stack_after(st, p + q) == match stack_after(st, p) {
            None => None,
            Some(s2) => stack_after(s2, q),
        },
    decreases q.len(),
{
    if q.len() == 0 {
        assert(p + q =~= p);
    } else {
        lemma_stack_after_concat(st, p, q.drop_last());
        assert((p + q).drop_last() =~= p + q.drop_last());
        assert((p + q).last() == q.last());
    }
}

/// Operands below the ones that a character uses are left as they are.
pub proof fn lemma_push_char_below(
    base: Seq<Seq<Instruction>>,
    st: Seq<Seq<Instruction>>,
    c: char,
)
    requires
        push_char(st, c) is Some,
    ensures
        push_char(base + st, c) == Some(base + push_char(st, c)->Some_0),
{
    let b = base + st;
    let n = st.len();
    let nb = b.len();
    if c == '|' || c == '.' {
        assert(b[nb - 2] == st[n - 2]);
        assert(b[nb - 1] == st[n - 1]);
        assert(b.subrange(0, nb - 2) =~= base + st.subrange(0, n - 2));
    } else if c == '*' {
        assert(b[nb - 1] == st[n - 1]);
        assert(b.drop_last() =~= base + st.drop_last());
    }
    assert(push_char(b, c)->Some_0 =~= base + push_char(st, c)->Some_0);
}

/// A pattern that does not reach below its own operands runs the same on top
/// of any stack.
pub proof fn lemma_stack_after_below(
    base: Seq<Seq<Instruction>>,
    st: Seq<Seq<Instruction>>,
    q: Seq<char>,
)
    requires
        stack_after(st, q) is Some,
    ensures
        stack_after(base + st, q) == Some(base + stack_after(st, q)->Some_0),
    decreases q.len(),
{
    if q.len() > 0 {
        lemma_stack_after_below(base, st, q.drop_last());
        lemma_push_char_below(base, stack_after(st, q.drop_last())->Some_0, q.last());
    }
}

pub proof fn lemma_literal_closed(c: char)
    ensures
        fragment_closed(seq![Instruction::Literal(c)]),
{
    let lit = seq![Instruction::Literal(c)];
    assert(lit[0] == Instruction::Literal(c));
}

pub open spec fn all_closed(st: Seq<Seq<Instruction>>) -> bool {
    forall|k: int| 0 <= k < st.len() ==> fragment_closed(#[trigger] st[k])
}

proof fn lemma_push_char_closed(st: Seq<Seq<Instruction>>, c: char, bound: int)
    requires
        all_closed(st),
        push_char(st, c) is Some,
        stack_size(st) <= bound,
        bound + 2 <= isize::MAX,
    ensures
        all_closed(push_char(st, c)->Some_0),
        stack_size(push_char(st, c)->Some_0) <= bound + 2,
{
    let n = st.len();
    let st2 = push_char(st, c)->Some_0;
    if c == '|' || c == '.' {
        assert(st.drop_last() =~= st.subrange(0, n - 1));
        assert(st.subrange(0, n - 1).drop_last() =~= st.subrange(0, n - 2));
        assert(stack_size(st) == stack_size(st.subrange(0, n - 1)) + st[n - 1].len());
        assert(stack_size(st.subrange(0, n - 1)) == stack_size(st.subrange(0, n - 2))
            + st[n - 2].len());
        lemma_stack_size_nonneg(st.subrange(0, n - 2));
        assert(fragment_closed(st[n - 2]) && fragment_closed(st[n - 1]));
        if c == '|' {
            lemma_alt_closed(st[n - 2], st[n - 1]);
            assert(st2 == st.subrange(0, n - 2).push(alt_fragment(st[n - 2], st[n - 1])));
            assert forall|k: int| 0 <= k < st2.len() implies fragment_closed(#[trigger] st2[k]) by {
                if k < st2.len() - 1 {
                    assert(st2[k] == st[k]);
                }
            }
            lemma_stack_size_push(
                st.subrange(0, n - 2),
                alt_fragment(st[n - 2], st[n - 1]),
            );
        } else {
            lemma_cat_closed(st[n - 2], st[n - 1]);
            assert(st2 == st.subrange(0, n - 2).push(cat_fragment(st[n - 2], st[n - 1])));
            assert forall|k: int| 0 <= k < st2.len() implies fragment_closed(#[trigger] st2[k]) by {
                if k < st2.len() - 1 {
                    assert(st2[k] == st[k]);
                }
            }
            lemma_stack_size_push(
                st.subrange(0, n - 2),
                cat_fragment(st[n - 2], st[n - 1]),
            );
        }
    } else if c == '*' {
        assert(stack_size(st) == stack_size(st.drop_last()) + st[n - 1].len());
        lemma_stack_size_nonneg(st.drop_last());
        assert(fragment_closed(st[n - 1]));
        lemma_star_closed(st[n - 1]);
        assert(st2 == st.drop_last().push(star_fragment(st[n - 1])));
        assert forall|k: int| 0 <= k < st2.len() implies fragment_closed(#[trigger] st2[k]) by {
            if k < st2.len() - 1 {
                assert(st2[k] == st[k]);
            }
        }
        lemma_stack_size_push(st.drop_last(), star_fragment(st[n - 1]));
    } else {
        lemma_literal_closed(c);
        assert(st2 == st.push(seq![Instruction::Literal(c)]));
        assert forall|k: int| 0 <= k < st2.len() implies fragment_closed(#[trigger] st2[k]) by {
            if k < st2.len() - 1 {
                assert(st2[k] == st[k]);
            }
        }
        lemma_stack_size_push(st, seq![Instruction::Literal(c)]);
    }
}

/// Every operand of a pattern that fits is a closed fragment, and together
/// they hold at most two instructions per character.
pub proof fn lemma_operands_closed(p: Seq<char>)
    requires
        pattern_fits(p),
        operand_stack(p) is Some,
    ensures
        stack_size(operand_stack(p)->Some_0) <= 2 * p.len(),
        all_closed(operand_stack(p)->Some_0),
    decreases p.len(),
{
    if p.len() > 0 {
        let q = p.drop_last();
        assert(operand_stack(q) is Some);
        lemma_operands_closed(q);
        lemma_push_char_closed(operand_stack(q)->Some_0, p.last(), (2 * q.len()) as int);
    }
}

/// Compiles the postfix pattern into a program.
pub fn compile_program(pattern: &str) -> (r: Result<Vec<Instruction>, MalformedPattern>)
    requires
        pattern_fits(pattern@),
    ensures
        match compiled(pattern@) {
            Ok(p) => r is Ok && r->Ok_0@ == p,
            Err(e) => r is Err && r->Err_0 == e,
        },
        r is Ok ==> wf_program(r->Ok_0@),
{
    let chars = chars_of(pattern);
    let mut stack: Vec<Vec<Instruction>> = Vec::new();
    let mut i: usize = 0;
    assert(pattern@.take(0) =~= Seq::<char>::empty());
    assert(views(stack@) =~= Seq::<Seq<Instruction>>::empty());
    while i < chars.len()
        invariant
            chars@ == pattern@,
            pattern_fits(pattern@),
            i <= chars.len(),
            operand_stack(pattern@.take(i as int)) == Some(views(stack@)),
            stack_size(views(stack@)) <= 2 * i,
            forall|k: int| 0 <= k < stack.len() ==> fragment_closed(#[trigger] stack@[k]@),
        decreases chars.len() - i,
    {
        let c = chars[i];
        let ghost st = views(stack@);
        let ghost stv = stack@;
        proof {
            assert(pattern@.take(i + 1).drop_last() =~= pattern@.take(i as int));
            assert(pattern@.take(i + 1).last() == c);
        }
        if c == '|' || c == '.' {
            if stack.len() < 2 {
                proof {
                    lemma_failure_persists(pattern@, i + 1, pattern@.len() as int);
                    assert(pattern@.take(pattern@.len() as int) =~= pattern@);
                }
                return Err(MalformedPattern::MissingOperand);
            }
            let mut s = stack.pop().unwrap();
            let mut f = stack.pop().unwrap();
            proof {
                let n = st.len();
                assert(views(stack@) =~= st.subrange(0, n - 2));
                assert(st.drop_last() =~= st.subrange(0, n - 1));
                assert(st.subrange(0, n - 1).drop_last() =~= st.subrange(0, n - 2));
                lemma_stack_size_nonneg(st.subrange(0, n - 2));
                assert(stack_size(st) == stack_size(st.subrange(0, n - 1)) + st[n - 1].len());
                assert(stack_size(st.subrange(0, n - 1)) == stack_size(st.subrange(0, n - 2))
                    + st[n - 2].len());
                assert(stack_size(st) == stack_size(st.subrange(0, n - 2)) + st[n - 2].len()
                    + st[n - 1].len());
                assert(s@ == st[n - 1]);
                assert(f@ == st[n - 2]);
                assert(fragment_closed(stv[n - 1]@));
            }
            let mut n: Vec<Instruction> = Vec::new();
            if c == '|' {
                let ls = f.len() + 2;
                let js = (s.len() + 1) as isize;
                n.push(Instruction::Split(ls));
                n.append(&mut f);
                n.push(Instruction::Jump(js));
                n.append(&mut s);
                proof {
                    assert(n@ =~= alt_fragment(st[st.len() - 2], st[st.len() - 1]));
                    lemma_alt_closed(st[st.len() - 2], st[st.len() - 1]);
                }
            } else {
                n.append(&mut f);
                n.append(&mut s);
                proof {
                    assert(n@ =~= cat_fragment(st[st.len() - 2], st[st.len() - 1]));
                    lemma_cat_closed(st[st.len() - 2], st[st.len() - 1]);
                }
            }
            let ghost mid = views(stack@);
            stack.push(n);
            proof {
                assert(views(stack@) =~= mid.push(n@));
                lemma_stack_size_push(mid, n@);
            }
        } else if c == '*' {
            if stack.len() < 1 {
                proof {
                    lemma_failure_persists(pattern@, i + 1, pattern@.len() as int);
                    assert(pattern@.take(pattern@.len() as int) =~= pattern@);
                }
                return Err(MalformedPattern::MissingOperand);
            }
            let mut f = stack.pop().unwrap();
            proof {
                let n = st.len();
                assert(views(stack@) =~= st.drop_last());
                lemma_stack_size_nonneg(st.drop_last());
                assert(stack_size(st) == stack_size(st.drop_last()) + st[n - 1].len());
                assert(f@ == st[n - 1]);
                assert(fragment_closed(stv[n - 1]@));
            }
            let l = f.len();
            let mut n: Vec<Instruction> = Vec::new();
            n.push(Instruction::Split(l + 2));
            n.append(&mut f);
            n.push(Instruction::Jump(-((l + 1) as isize)));
            proof {
                assert(n@ =~= star_fragment(st[st.len() - 1]));
                lemma_star_closed(st[st.len() - 1]);
            }
            let ghost mid = views(stack@);
            stack.push(n);
            proof {
                assert(views(stack@) =~= mid.push(n@));
                lemma_stack_size_push(mid, n@);
            }
        } else {
            let n: Vec<Instruction> = vec![Instruction::Literal(c)];
            proof {
                assert(n@ =~= seq![Instruction::Literal(c)]);
            }
            stack.push(n);
            proof {
                assert(views(stack@) =~= st.push(n@));
                lemma_stack_size_push(st, n@);
            }
        }
        i = i + 1;
    }
    proof {
        assert(pattern@.take(pattern@.len() as int) =~= pattern@);
    }
    if stack.len() != 1 {
        return Err(MalformedPattern::UnbalancedExpression);
    }
    let ghost stv = stack@;
    let mut prog = stack.pop().unwrap();
    proof {
        assert(prog@ == views(stv)[0]);
    }
    let ghost body = prog@;
    prog.push(Instruction::Match);
    proof {
        assert(prog@.drop_last() =~= body);
    }
    Ok(prog)
}

} // verus!
