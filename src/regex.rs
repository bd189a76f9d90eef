use vstd::prelude::*;

use crate::compiler::{compile_program, compiled, pattern_fits, MalformedPattern};
use crate::matcher::run;
use crate::program::{accepts, wf_program, Instruction};

verus! {

/// A compiled regular expression.
pub struct Regex {
    instructions: Vec<Instruction>,
}

impl View for Regex {
    type V = Seq<Instruction>;

    /// The program's instructions.
    closed spec fn view(&self) -> Seq<Instruction> {
        self.instructions@
    }
}

impl Regex {
    #[verifier::type_invariant]
    spec fn inv(&self) -> bool {
        wf_program(self.instructions@)
    }

    /// Compiles a pattern written in postfix form: `|` alternates, `*` repeats
    /// and `.` concatenates the operands before it; any other character is a
    /// literal.
    pub fn compile(pattern: &str) -> (r: Result<Regex, MalformedPattern>)
        requires
            pattern_fits(pattern@),
        ensures
            match compiled(pattern@) {
                Ok(p) => r is Ok && r->Ok_0@ == p,
                Err(e) => r is Err && r->Err_0 == e,
            },
            r is Ok ==> wf_program(r->Ok_0@),
    {
        match compile_program(pattern) {
            Ok(instructions) => Ok(Regex { instructions }),
            Err(e) => Err(e),
        }
    }

    /// Whether the whole of `text` is matched.
    pub fn is_match(&self, text: &str) -> (r: bool)
        ensures
            r == accepts(self@, text@),
    {
        proof {
            use_type_invariant(self);
        }
        run(&self.instructions, text)
    }
}

} // verus!
