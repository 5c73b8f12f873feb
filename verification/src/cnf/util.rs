use vstd::layout::{align_of, size_of};
use vstd::prelude::*;

use super::print::{write_bytes, write_usize};
use super::{Clause, Literal, Problem, Variable, VariableId};
use crate::util::stopwatch::{padded, write_padded};
use crate::util::Typeinfo;

verus! {

pub const SPACE: u8 = 32;

/// A name in at least 15 places, filled up with spaces behind.
pub open spec fn titled(name: Seq<u8>) -> Seq<u8> {
    if name.len() < 15 {
        name + Seq::new((15 - name.len()) as nat, |i: int| SPACE)
    } else {
        name
    }
}

/// The line that tells the size of a type and its alignment:
/// `Literal         size:   8 B, alignment:   8 B`, behind the indent.
pub open spec fn stat_line(indent: Seq<u8>, name: Seq<u8>, size: nat, alignment: nat) -> Seq<u8> {
    indent + titled(name) + seq![32u8, 115u8, 105u8, 122u8, 101u8, 58u8, 32u8] + padded(size, 3, SPACE) + seq![
        32u8, 66u8, 44u8, 32u8, 97u8, 108u8, 105u8, 103u8, 110u8, 109u8, 101u8, 110u8, 116u8, 58u8, 32u8,
    ] + padded(alignment, 3, SPACE) + seq![32u8, 66u8, 10u8]
}

/// The lines that tell the sizes of the types of the solver.
pub open spec fn stats_text(indent: Seq<u8>) -> Seq<u8> {
    stat_line(
        indent,
        seq![76u8, 105u8, 116u8, 101u8, 114u8, 97u8, 108u8],
        size_of::<Literal>(),
        align_of::<Literal>(),
    ) + stat_line(
        indent,
        seq![67u8, 108u8, 97u8, 117u8, 115u8, 101u8],
        size_of::<Clause>(),
        align_of::<Clause>(),
    ) + stat_line(
        indent,
        seq![86u8, 97u8, 114u8, 105u8, 97u8, 98u8, 108u8, 101u8],
        size_of::<Variable>(),
        align_of::<Variable>(),
    ) + stat_line(
        indent,
        seq![86u8, 97u8, 114u8, 105u8, 97u8, 98u8, 108u8, 101u8, 73u8, 100u8],
        size_of::<VariableId>(),
        align_of::<VariableId>(),
    ) + stat_line(
        indent,
        seq![80u8, 114u8, 111u8, 98u8, 108u8, 101u8, 109u8, 60u8, 117u8, 115u8, 105u8, 122u8, 101u8, 62u8],
        size_of::<Problem<usize>>(),
        align_of::<Problem<usize>>(),
    ) + stat_line(
        indent,
        seq![80u8, 114u8, 111u8, 98u8, 108u8, 101u8, 109u8, 60u8, 83u8, 116u8, 114u8, 105u8, 110u8, 103u8, 62u8],
        size_of::<Problem<String>>(),
        align_of::<Problem<String>>(),
    )
}

/// Writes the line that tells the size of a type and its alignment.
pub fn write_stat(out: &mut Vec<u8>, indent: &[u8], name: &[u8], size: usize, alignment: usize)
    ensures
        final(out)@ == old(out)@ + stat_line(indent@, name@, size as nat, alignment as nat),
{
    let head: [u8; 7] = [32u8, 115u8, 105u8, 122u8, 101u8, 58u8, 32u8];
    let mid: [u8; 15] = [
        32u8, 66u8, 44u8, 32u8, 97u8, 108u8, 105u8, 103u8, 110u8, 109u8, 101u8, 110u8, 116u8, 58u8, 32u8,
    ];
    let tail: [u8; 3] = [32u8, 66u8, 10u8];
    write_bytes(out, indent);
    write_bytes(out, name);
    let ghost named = out@;
    let mut filled: usize = name.len();
    while filled < 15
        invariant
            name@.len() <= filled,
            filled <= 15 || filled == name@.len(),
            out@ == named + Seq::new((filled - name@.len()) as nat, |i: int| SPACE),
        decreases 15 - filled,
    {
        out.push(SPACE);
        filled += 1;
        proof {
            assert(out@ =~= named + Seq::new((filled - name@.len()) as nat, |i: int| SPACE));
        }
    }
    proof {
        assert(named =~= old(out)@ + indent@ + name@);
        if name@.len() < 15 {
            assert(filled == 15);
        } else {
            assert(filled == name@.len());
            assert(Seq::new((filled - name@.len()) as nat, |i: int| SPACE) =~= Seq::<u8>::empty());
        }
        assert(out@ =~= old(out)@ + indent@ + titled(name@));
    }
    write_bytes(out, head.as_slice());
    write_padded(out, size as u64, 3, SPACE);
    write_bytes(out, mid.as_slice());
    write_padded(out, alignment as u64, 3, SPACE);
    write_bytes(out, tail.as_slice());
    proof {
        assert(head@ =~= seq![32u8, 115u8, 105u8, 122u8, 101u8, 58u8, 32u8]);
        assert(mid@ =~= seq![
            32u8, 66u8, 44u8, 32u8, 97u8, 108u8, 105u8, 103u8, 110u8, 109u8, 101u8, 110u8, 116u8, 58u8, 32u8,
        ]);
        assert(tail@ =~= seq![32u8, 66u8, 10u8]);
        assert(final(out)@ =~= old(out)@ + stat_line(indent@, name@, size as nat, alignment as nat));
    }
}

/// The text that tells, for each type of the solver, its size and its
/// alignment, each on a line behind the indent.
pub fn print_stats(indent: &[u8]) -> (text: Vec<u8>)
    ensures
        text@ == stats_text(indent@),
{
    let mut out: Vec<u8> = Vec::new();
    let literal: [u8; 7] = [76u8, 105u8, 116u8, 101u8, 114u8, 97u8, 108u8];
    let clause: [u8; 6] = [67u8, 108u8, 97u8, 117u8, 115u8, 101u8];
    let variable: [u8; 8] = [86u8, 97u8, 114u8, 105u8, 97u8, 98u8, 108u8, 101u8];
    let variable_id: [u8; 10] = [86u8, 97u8, 114u8, 105u8, 97u8, 98u8, 108u8, 101u8, 73u8, 100u8];
    let numbered: [u8; 14] = [
        80u8, 114u8, 111u8, 98u8, 108u8, 101u8, 109u8, 60u8, 117u8, 115u8, 105u8, 122u8, 101u8, 62u8,
    ];
    let named: [u8; 15] = [
        80u8, 114u8, 111u8, 98u8, 108u8, 101u8, 109u8, 60u8, 83u8, 116u8, 114u8, 105u8, 110u8, 103u8, 62u8,
    ];
    proof {
        assert(literal@ =~= seq![76u8, 105u8, 116u8, 101u8, 114u8, 97u8, 108u8]);
        assert(clause@ =~= seq![67u8, 108u8, 97u8, 117u8, 115u8, 101u8]);
        assert(variable@ =~= seq![86u8, 97u8, 114u8, 105u8, 97u8, 98u8, 108u8, 101u8]);
        assert(variable_id@ =~= seq![86u8, 97u8, 114u8, 105u8, 97u8, 98u8, 108u8, 101u8, 73u8, 100u8]);
        assert(numbered@ =~= seq![
            80u8, 114u8, 111u8, 98u8, 108u8, 101u8, 109u8, 60u8, 117u8, 115u8, 105u8, 122u8, 101u8, 62u8,
        ]);
        assert(named@ =~= seq![
            80u8, 114u8, 111u8, 98u8, 108u8, 101u8, 109u8, 60u8, 83u8, 116u8, 114u8, 105u8, 110u8, 103u8, 62u8,
        ]);
    }
    write_stat(&mut out, indent, literal.as_slice(), Typeinfo::<Literal>::size(), Typeinfo::<Literal>::alignment());
    write_stat(&mut out, indent, clause.as_slice(), Typeinfo::<Clause>::size(), Typeinfo::<Clause>::alignment());
    write_stat(
        &mut out,
        indent,
        variable.as_slice(),
        Typeinfo::<Variable>::size(),
        Typeinfo::<Variable>::alignment(),
    );
    write_stat(
        &mut out,
        indent,
        variable_id.as_slice(),
        Typeinfo::<VariableId>::size(),
        Typeinfo::<VariableId>::alignment(),
    );
    write_stat(
        &mut out,
        indent,
        numbered.as_slice(),
        Typeinfo::<Problem<usize>>::size(),
        Typeinfo::<Problem<usize>>::alignment(),
    );
    write_stat(
        &mut out,
        indent,
        named.as_slice(),
        Typeinfo::<Problem<String>>::size(),
        Typeinfo::<Problem<String>>::alignment(),
    );
    proof {
        assert(out@ =~= stats_text(indent@));
    }
    out
}

} // verus!
