use vstd::prelude::*;

verus! {

/// One instruction of a compiled program. Branch offsets are relative to the
/// index of the instruction that holds them.
#[derive(Debug, Clone, Copy, PartialEq, Eq, Structural)]
pub enum Instruction {
    /// Consumes one input character equal to the payload.
    Literal(char),
    /// Epsilon branch to the next index and to `index + offset`.
    Split(usize),
    /// Epsilon jump to `index + offset`.
    Jump(isize),
    /// Accepting instruction, always the last one of a program.
    Match,
}

/// The absolute index that a branch offset at index `i` designates.
pub open spec fn split_target(i: int, d: usize) -> int {
    i + d
}

pub open spec fn jump_target(i: int, d: isize) -> int {
    i + d
}

/// Every branch of the fragment `f` lands in `0..=f.len()`, and `f` holds no
/// `Match`: the fragment is entered at 0 and left at `f.len()`.
pub open spec fn fragment_closed(f: Seq<Instruction>) -> bool {
    forall|i: int|
        #![trigger f[i]]
        0 <= i < f.len() ==> match f[i] {
            Instruction::Literal(_) => true,
            Instruction::Split(d) => 0 <= split_target(i, d) <= f.len(),
            Instruction::Jump(d) => 0 <= jump_target(i, d) <= f.len(),
            Instruction::Match => false,
        }
}

/// A well-formed program: a closed fragment followed by its one `Match`.
pub open spec fn wf_program(p: Seq<Instruction>) -> bool {
    &&& p.len() >= 1
    &&& p.last() == Instruction::Match
    &&& fragment_closed(p.drop_last())
}

/// `j` is an epsilon successor of `i`.
pub open spec fn eps_succ(p: Seq<Instruction>, i: int, j: int) -> bool {
    0 <= i < p.len() && match p[i] {
        Instruction::Split(d) => j == i + 1 || j == split_target(i, d),
        Instruction::Jump(d) => j == jump_target(i, d),
        _ => false,
    }
}

/// There is a path of exactly `n` epsilon edges from `i` to `j`.
pub open spec fn eps_path(p: Seq<Instruction>, i: int, j: int, n: nat) -> bool
    decreases n,
{
    if n == 0 {
        i == j
    } else if 0 <= i < p.len() {
        match p[i] {
            Instruction::Split(d) => eps_path(p, i + 1, j, (n - 1) as nat) || eps_path(
                p,
                split_target(i, d),
                j,
                (n - 1) as nat,
            ),
            Instruction::Jump(d) => eps_path(p, jump_target(i, d), j, (n - 1) as nat),
            _ => false,
        }
    } else {
        false
    }
}

/// `j` can be reached from `i` by epsilon edges alone.
pub open spec fn eps_reach(p: Seq<Instruction>, i: int, j: int) -> bool {
    exists|n: nat| eps_path(p, i, j, n)
}

/// An instruction that waits for input or accepts: a Literal or the Match.
pub open spec fn is_stop(p: Seq<Instruction>, j: int) -> bool {
    0 <= j < p.len() && (p[j] is Literal || p[j] is Match)
}

/// `j` belongs to the epsilon-closure of `i`.
pub open spec fn in_closure(p: Seq<Instruction>, i: int, j: int) -> bool {
    is_stop(p, j) && eps_reach(p, i, j)
}

/// The threads that are alive after the program has read `s`: the closure of
/// the entry, then for each character the closures after every Literal that
/// accepts it.
pub open spec fn active(p: Seq<Instruction>, s: Seq<char>) -> Set<int>
    decreases s.len(),
{
    if s.len() == 0 {
        Set::new(|j: int| in_closure(p, 0, j))
    } else {
        let prev = active(p, s.drop_last());
        Set::new(
            |j: int|
                exists|t: int|
                    #![trigger prev.contains(t)]
                    prev.contains(t) && p[t] == Instruction::Literal(s.last()) && in_closure(
                        p,
                        t + 1,
                        j,
                    ),
        )
    }
}

/// The program accepts `s`: its Match is alive once `s` has been read.
pub open spec fn accepts(p: Seq<Instruction>, s: Seq<char>) -> bool {
    active(p, s).contains(p.len() - 1)
}

/// The characters of `s`, in order.
pub fn chars_of(s: &str) -> (r: Vec<char>)
    ensures
        r@ == s@,
{
    let mut r: Vec<char> = Vec::new();
    for c in it: s.chars()
        invariant
            it.seq() == s@,
            r@ == s@.take(it.index() as int),
    {
        r.push(c);
        assert(r@ =~= s@.take(it.index() + 1));
    }
    assert(r@ =~= s@.take(s@.len() as int));
    r
}

} // verus!
