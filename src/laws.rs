use vstd::prelude::*;

use crate::compiler::{
    alt_fragment, cat_fragment, compiled, lemma_operand_stack_from_empty, lemma_operands_closed,
    lemma_stack_after_below, lemma_stack_after_concat, operand_stack, pattern_fits, push_char,
    stack_size, star_fragment, MalformedPattern,
};
use crate::language::{
    finished, in_star, lemma_alt_language, lemma_cat_language, lemma_star_language,
};
use crate::program::{accepts, fragment_closed, Instruction};
use crate::regex::Regex;

verus! {

/// A postfix pattern whose operators all find their operands and which leaves
/// exactly one operand behind.
pub open spec fn balanced(p: Seq<char>) -> bool {
    operand_stack(p) matches Some(st) && st.len() == 1
}

pub open spec fn has_no_match(f: Seq<Instruction>) -> bool {
    forall|i: int| 0 <= i < f.len() ==> #[trigger] f[i] != Instruction::Match
}

pub open spec fn all_without_match(st: Seq<Seq<Instruction>>) -> bool {
    forall|k: int| 0 <= k < st.len() ==> has_no_match(#[trigger] st[k])
}

proof fn lemma_push_char_no_match(st: Seq<Seq<Instruction>>, c: char)
    requires
        all_without_match(st),
        push_char(st, c) is Some,
    ensures
        all_without_match(push_char(st, c)->Some_0),
{
    let n = st.len();
    let st2 = push_char(st, c)->Some_0;
    if c == '|' {
        let a = alt_fragment(st[n - 2], st[n - 1]);
        assert(has_no_match(st[n - 2]) && has_no_match(st[n - 1]));
        assert forall|i: int| 0 <= i < a.len() implies #[trigger] a[i] != Instruction::Match by {
            if 1 <= i <= st[n - 2].len() {
                assert(a[i] == st[n - 2][i - 1]);
            } else if i > st[n - 2].len() + 1 {
                assert(a[i] == st[n - 1][i - st[n - 2].len() - 2]);
            }
        }
        assert(st2 == st.subrange(0, n - 2).push(a));
    } else if c == '*' {
        let a = star_fragment(st[n - 1]);
        assert(has_no_match(st[n - 1]));
        assert forall|i: int| 0 <= i < a.len() implies #[trigger] a[i] != Instruction::Match by {
            if 1 <= i <= st[n - 1].len() {
                assert(a[i] == st[n - 1][i - 1]);
            }
        }
        assert(st2 == st.drop_last().push(a));
    } else if c == '.' {
        let a = cat_fragment(st[n - 2], st[n - 1]);
        assert(has_no_match(st[n - 2]) && has_no_match(st[n - 1]));
        assert forall|i: int| 0 <= i < a.len() implies #[trigger] a[i] != Instruction::Match by {
            if i >= st[n - 2].len() {
                assert(a[i] == st[n - 1][i - st[n - 2].len()]);
            }
        }
        assert(st2 == st.subrange(0, n - 2).push(a));
    } else {
        let lit = seq![Instruction::Literal(c)];
        assert(lit[0] == Instruction::Literal(c));
        assert(has_no_match(lit));
        assert(st2 == st.push(lit));
    }
    assert forall|k: int| 0 <= k < st2.len() implies has_no_match(#[trigger] st2[k]) by {
        if k < st2.len() - 1 {
            assert(st2[k] == st[k]);
        }
    }
}

proof fn lemma_operands_have_no_match(p: Seq<char>)
    requires
        operand_stack(p) is Some,
    ensures
        all_without_match(operand_stack(p)->Some_0),
    decreases p.len(),
{
    if p.len() > 0 {
        assert(operand_stack(p.drop_last()) is Some);
        lemma_operands_have_no_match(p.drop_last());
        lemma_push_char_no_match(operand_stack(p.drop_last())->Some_0, p.last());
    }
}

/// A balanced pattern compiles, and its program ends in a Match, which is the
/// only Match it holds.
pub proof fn law_balanced_compiles_to_one_final_match(p: Seq<char>)
    requires
        balanced(p),
    ensures
        compiled(p) is Ok,
        compiled(p)->Ok_0.last() == Instruction::Match,
        forall|i: int|
            0 <= i < compiled(p)->Ok_0.len() - 1 ==> #[trigger] compiled(p)->Ok_0[i]
                != Instruction::Match,
{
    lemma_operands_have_no_match(p);
    let f = operand_stack(p)->Some_0[0];
    let q = compiled(p)->Ok_0;
    assert(has_no_match(f));
    assert forall|i: int| 0 <= i < q.len() - 1 implies #[trigger] q[i] != Instruction::Match by {
        assert(q[i] == f[i]);
    }
}

/// Matching is a function of the pattern and the text: two compilations of one
/// pattern agree on every text.
pub proof fn law_matching_is_deterministic(p: Seq<char>, a: Regex, b: Regex, text: Seq<char>)
    requires
        compiled(p) is Ok,
        a@ == compiled(p)->Ok_0,
        b@ == compiled(p)->Ok_0,
    ensures
        accepts(a@, text) == accepts(b@, text),
{
}

/// The single operand that a balanced pattern leaves.
pub open spec fn operand_of(p: Seq<char>) -> Seq<Instruction> {
    operand_stack(p)->Some_0[0]
}

/// A balanced pattern that fits compiles to its operand followed by the Match,
/// and that operand is closed.
proof fn lemma_balanced_program(p: Seq<char>)
    requires
        balanced(p),
        pattern_fits(p),
    ensures
        compiled(p) == Ok::<Seq<Instruction>, MalformedPattern>(finished(operand_of(p))),
        fragment_closed(operand_of(p)),
        operand_of(p).len() <= 2 * p.len(),
{
    lemma_operands_closed(p);
    let st = operand_stack(p)->Some_0;
    assert(st.drop_last() =~= Seq::<Seq<Instruction>>::empty());
    assert(stack_size(st.drop_last()) == 0);
    assert(stack_size(st) == st[0].len());
}

/// Reading `q` after the balanced `p` stacks the operands of both.
proof fn lemma_two_operands(p: Seq<char>, q: Seq<char>)
    requires
        balanced(p),
        balanced(q),
    ensures
        operand_stack(p + q) == Some(seq![operand_of(p), operand_of(q)]),
{
    let e: Seq<Seq<Instruction>> = Seq::empty();
    lemma_operand_stack_from_empty(p);
    lemma_operand_stack_from_empty(q);
    lemma_operand_stack_from_empty(p + q);
    lemma_stack_after_concat(e, p, q);
    let bottom = seq![operand_of(p)];
    assert(operand_stack(p)->Some_0 =~= bottom);
    assert(operand_stack(q)->Some_0 =~= seq![operand_of(q)]);
    lemma_stack_after_below(bottom, e, q);
    assert(bottom + e =~= bottom);
    assert(bottom + seq![operand_of(q)] =~= seq![operand_of(p), operand_of(q)]);
}

/// Reading the one character `c` on top of `st`.
proof fn lemma_one_more(st: Seq<Seq<Instruction>>, p: Seq<char>, c: char)
    requires
        operand_stack(p) == Some(st),
    ensures
        operand_stack(p + seq![c]) == push_char(st, c),
{
    let q = p + seq![c];
    assert(q.drop_last() =~= p);
    assert(q.last() == c);
}

/// A binary operator after two balanced patterns leaves one operand.
proof fn lemma_binary(p: Seq<char>, q: Seq<char>, c: char)
    requires
        balanced(p),
        balanced(q),
        c == '|' || c == '.',
    ensures
        operand_stack(p + q + seq![c]) == Some(
            seq![
                if c == '|' {
                    alt_fragment(operand_of(p), operand_of(q))
                } else {
                    cat_fragment(operand_of(p), operand_of(q))
                },
            ],
        ),
{
    lemma_two_operands(p, q);
    let st = seq![operand_of(p), operand_of(q)];
    lemma_one_more(st, p + q, c);
    assert(st.subrange(0, 0) =~= Seq::<Seq<Instruction>>::empty());
}

/// Alternation: `l s |` accepts exactly what `l` or `s` accepts, whichever of
/// the two comes first.
pub proof fn law_alternation_is_union(l: Seq<char>, s: Seq<char>, x: Seq<char>)
    requires
        balanced(l),
        balanced(s),
        pattern_fits(l + s + seq!['|']),
    ensures
        compiled(l + s + seq!['|']) is Ok,
        compiled(s + l + seq!['|']) is Ok,
        accepts(compiled(l + s + seq!['|'])->Ok_0, x) <==> accepts(compiled(l)->Ok_0, x)
            || accepts(compiled(s)->Ok_0, x),
        accepts(compiled(l + s + seq!['|'])->Ok_0, x) == accepts(
            compiled(s + l + seq!['|'])->Ok_0,
            x,
        ),
{
    let p1 = l + s + seq!['|'];
    let p2 = s + l + seq!['|'];
    assert(pattern_fits(l) && pattern_fits(s));
    lemma_balanced_program(l);
    lemma_balanced_program(s);
    lemma_binary(l, s, '|');
    lemma_binary(s, l, '|');
    let a1 = alt_fragment(operand_of(l), operand_of(s));
    let a2 = alt_fragment(operand_of(s), operand_of(l));
    assert(operand_stack(p1)->Some_0[0] == a1);
    assert(operand_stack(p2)->Some_0[0] == a2);
    lemma_alt_language(operand_of(l), operand_of(s), x);
    lemma_alt_language(operand_of(s), operand_of(l), x);
}

/// Repetition: `f *` accepts the empty text, and exactly the concatenations of
/// zero or more texts that `f` accepts.
pub proof fn law_repetition_is_star(f: Seq<char>, x: Seq<char>)
    requires
        balanced(f),
        pattern_fits(f + seq!['*']),
    ensures
        compiled(f + seq!['*']) is Ok,
        accepts(compiled(f + seq!['*'])->Ok_0, Seq::empty()),
        accepts(compiled(f + seq!['*'])->Ok_0, x) <==> exists|pieces: Seq<Seq<char>>|
            #[trigger] pieces.flatten() == x && forall|i: int|
                0 <= i < pieces.len() ==> accepts(compiled(f)->Ok_0, #[trigger] pieces[i]),
{
    let p = f + seq!['*'];
    assert(pattern_fits(f));
    lemma_balanced_program(f);
    let st = seq![operand_of(f)];
    assert(operand_stack(f)->Some_0 =~= st);
    lemma_one_more(st, f, '*');
    assert(st.drop_last() =~= Seq::<Seq<Instruction>>::empty());
    let g = star_fragment(operand_of(f));
    assert(operand_stack(p)->Some_0 =~= seq![g]);
    assert(compiled(p) == Ok::<Seq<Instruction>, MalformedPattern>(finished(g)));
    lemma_star_language(operand_of(f), x);
    lemma_star_language(operand_of(f), Seq::empty());
    let none: Seq<Seq<char>> = Seq::empty();
    assert(none.flatten() =~= Seq::<char>::empty());
    assert(in_star(operand_of(f), Seq::empty()));
}

/// Concatenation: `f s . t .` accepts exactly the texts made of a part that
/// `f` accepts, then one that `s` accepts, then one that `t` accepts; grouped
/// the other way, as `f s t . .`, it compiles to the same program.
pub proof fn law_concatenation_composes(f: Seq<char>, s: Seq<char>, t: Seq<char>, x: Seq<char>)
    requires
        balanced(f),
        balanced(s),
        balanced(t),
        pattern_fits(f + s + seq!['.'] + t + seq!['.']),
    ensures
        compiled(f + s + seq!['.'] + t + seq!['.']) is Ok,
        compiled(f + s + seq!['.'] + t + seq!['.']) == compiled(f + s + t + seq!['.', '.']),
        accepts(compiled(f + s + seq!['.'] + t + seq!['.'])->Ok_0, x) <==> exists|i: int, j: int|
            0 <= i <= j <= x.len() && accepts(compiled(f)->Ok_0, x.subrange(0, i)) && accepts(
                compiled(s)->Ok_0,
                #[trigger] x.subrange(i, j),
            ) && accepts(compiled(t)->Ok_0, x.subrange(j, x.len() as int)),
{
    let fs = f + s + seq!['.'];
    let st = s + t + seq!['.'];
    let p = fs + t + seq!['.'];
    let q = f + s + t + seq!['.', '.'];
    assert(q =~= f + st + seq!['.']);
    assert(pattern_fits(f) && pattern_fits(s) && pattern_fits(t));
    lemma_balanced_program(f);
    lemma_balanced_program(s);
    lemma_balanced_program(t);
    let ff = operand_of(f);
    let sf = operand_of(s);
    let tf = operand_of(t);
    lemma_binary(f, s, '.');
    lemma_binary(s, t, '.');
    assert(operand_of(fs) == cat_fragment(ff, sf));
    assert(operand_of(st) == cat_fragment(sf, tf));
    lemma_binary(fs, t, '.');
    lemma_binary(f, st, '.');
    let whole = cat_fragment(cat_fragment(ff, sf), tf);
    assert(cat_fragment(ff, cat_fragment(sf, tf)) =~= whole);
    assert(operand_of(p) == whole);
    assert(operand_of(q) == whole);
    assert(compiled(p) == compiled(q));
    assert(compiled(p) == Ok::<Seq<Instruction>, MalformedPattern>(finished(whole)));
    crate::compiler::lemma_cat_closed(ff, sf);
    let fsf = cat_fragment(ff, sf);
    lemma_cat_language(fsf, tf, x);
    if accepts(finished(whole), x) {
        let k = choose|k: int|
            0 <= k <= x.len() && accepts(finished(fsf), x.take(k)) && accepts(
                finished(tf),
                #[trigger] x.skip(k),
            );
        let y = x.take(k);
        lemma_cat_language(ff, sf, y);
        let k2 = choose|k2: int|
            0 <= k2 <= y.len() && accepts(finished(ff), y.take(k2)) && accepts(
                finished(sf),
                #[trigger] y.skip(k2),
            );
        assert(x.subrange(0, k2) =~= y.take(k2));
        assert(x.subrange(k2, k) =~= y.skip(k2));
        assert(x.subrange(k, x.len() as int) =~= x.skip(k));
    }
    if exists|i: int, j: int|
        0 <= i <= j <= x.len() && accepts(finished(ff), x.subrange(0, i)) && accepts(
            finished(sf),
            #[trigger] x.subrange(i, j),
        ) && accepts(finished(tf), x.subrange(j, x.len() as int)) {
        let (i, j) = choose|i: int, j: int|
            0 <= i <= j <= x.len() && accepts(finished(ff), x.subrange(0, i)) && accepts(
                finished(sf),
                #[trigger] x.subrange(i, j),
            ) && accepts(finished(tf), x.subrange(j, x.len() as int));
        let y = x.take(j);
        lemma_cat_language(ff, sf, y);
        assert(y.take(i) =~= x.subrange(0, i));
        assert(y.skip(i) =~= x.subrange(i, j));
        assert(accepts(finished(fsf), y));
        assert(x.skip(j) =~= x.subrange(j, x.len() as int));
        assert(accepts(finished(tf), x.skip(j)));
    }
}

} // verus!
