//! Renders an instruction stream as C source text.

use vstd::prelude::*;
use vstd::string::StringExecFns;
use crate::cell_type::CellType;
use crate::compile::InstructionStream;
use crate::instruction::Instruction;

verus! {

/// The character of the decimal digit `d`.
pub open spec fn digit_char(d: nat) -> char {
    if d == 0 {
        '0'
    } else if d == 1 {
        '1'
    } else if d == 2 {
        '2'
    } else if d == 3 {
        '3'
    } else if d == 4 {
        '4'
    } else if d == 5 {
        '5'
    } else if d == 6 {
        '6'
    } else if d == 7 {
        '7'
    } else if d == 8 {
        '8'
    } else {
        '9'
    }
}

/// `n` written in decimal, without leading zeros.
pub open spec fn decimal_digits(n: nat) -> Seq<char>
    decreases n,
{
    if n < 10 {
        seq![digit_char(n)]
    } else {
        decimal_digits(n / 10).push(digit_char(n % 10))
    }
}

/// The lines that every rendered program starts with: the cell type, the
/// data array of `size` cells and the cursor on its first cell.
pub open spec fn c_prologue(c_type: Seq<char>, size: nat) -> Seq<char> {
    "#include <stdio.h>\n"@ + "typedef "@ + c_type + " bf_cell_t;\n"@ + "static bf_cell_t arr["@
        + decimal_digits(size) + "] = {0,};\n"@ + "int main() {\n"@
        + "\tbf_cell_t* cursor = arr;\n"@
}

/// The line that renders one instruction.
pub open spec fn c_statement<T: CellType>(instruction: Instruction<T>) -> Seq<char> {
    match instruction {
        Instruction::SetCell(value) => "\t*cursor = "@ + decimal_digits(value.value() as nat)
            + ";\n"@,
        Instruction::Write => "\tputchar(*cursor);\n"@,
        Instruction::Read => "\t*cursor = getchar(); if (*cursor == EOF) { *cursor = 0; }\n"@,
        Instruction::LoopStart(_) => "\twhile (*cursor != 0) {\n"@,
        Instruction::LoopEnd(_) => "\t}\n"@,
        Instruction::Inc(by) => "\t*cursor += "@ + decimal_digits(by.value() as nat) + ";\n"@,
        Instruction::Dec(by) => "\t*cursor -= "@ + decimal_digits(by.value() as nat) + ";\n"@,
        Instruction::IncPtr(by) => "\tcursor += "@ + decimal_digits(by.value() as nat) + ";\n"@,
        Instruction::DecPtr(by) => "\tcursor -= "@ + decimal_digits(by.value() as nat) + ";\n"@,
    }
}

/// The lines that render the first `n` instructions of `s`, one line each.
pub open spec fn c_statements<T: CellType>(s: Seq<Instruction<T>>, n: int) -> Seq<char>
    decreases n,
{
    if n <= 0 {
        Seq::empty()
    } else {
        c_statements(s, n - 1) + c_statement(s[n - 1])
    }
}

/// The whole C program for `s` on an array of `size` cells.
pub open spec fn c_source<T: CellType>(s: Seq<Instruction<T>>, size: nat) -> Seq<char> {
    c_prologue(T::c_type_name(), size) + c_statements(s, s.len() as int) + "}\n"@
}

/// The decimal digit `d` as text.
fn digit(d: u64) -> (r: &'static str)
    requires
        d < 10,
    ensures
        r@ == seq![digit_char(d as nat)],
{
    proof {
        reveal_strlit("0");
        reveal_strlit("1");
        reveal_strlit("2");
        reveal_strlit("3");
        reveal_strlit("4");
        reveal_strlit("5");
        reveal_strlit("6");
        reveal_strlit("7");
        reveal_strlit("8");
        reveal_strlit("9");
    }
    let text = if d == 0 {
        "0"
    } else if d == 1 {
        "1"
    } else if d == 2 {
        "2"
    } else if d == 3 {
        "3"
    } else if d == 4 {
        "4"
    } else if d == 5 {
        "5"
    } else if d == 6 {
        "6"
    } else if d == 7 {
        "7"
    } else if d == 8 {
        "8"
    } else {
        "9"
    };
    proof {
        assert(text@ =~= seq![digit_char(d as nat)]);
    }
    text
}

/// Appends `n` in decimal to `out`.
fn push_decimal(out: &mut String, n: u64)
    ensures
        final(out)@ == old(out)@ + decimal_digits(n as nat),
    decreases n,
{
    if n < 10 {
        out.append(digit(n));
    } else {
        push_decimal(out, n / 10);
        out.append(digit(n % 10));
        proof {
            assert(final(out)@ =~= old(out)@ + decimal_digits(n as nat));
        }
    }
}

/// Appends `before`, `n` in decimal and `after` to `out`.
fn push_numbered(out: &mut String, before: &str, n: u64, after: &str)
    ensures
        final(out)@ == old(out)@ + (before@ + decimal_digits(n as nat) + after@),
{
    out.append(before);
    push_decimal(out, n);
    out.append(after);
    proof {
        assert(final(out)@ =~= old(out)@ + (before@ + decimal_digits(n as nat) + after@));
    }
}

impl<T: CellType> InstructionStream<T> {
    /// Renders this instruction stream as C code: one statement for each
    /// instruction, as it stands, on an array of the recommended size.
    pub fn render_c(&self) -> (r: String)
        ensures
            r@ == c_source(self@, self.array_size() as nat),
    {
        let mut out = String::new();
        out.append("#include <stdio.h>\n");
        out.append("typedef ");
        out.append(T::c_type());
        out.append(" bf_cell_t;\n");
        push_numbered(
            &mut out,
            "static bf_cell_t arr[",
            self.recommended_array_size() as u64,
            "] = {0,};\n",
        );
        out.append("int main() {\n");
        out.append("\tbf_cell_t* cursor = arr;\n");
        proof {
            assert(out@ =~= c_prologue(T::c_type_name(), self.array_size() as nat));
        }
        let instructions = self.instructions();
        let mut idx: usize = 0;
        while idx < instructions.len()
            invariant
                instructions@ == self@,
                idx <= instructions@.len(),
                out@ == c_prologue(T::c_type_name(), self.array_size() as nat) + c_statements(
                    self@,
                    idx as int,
                ),
            decreases instructions@.len() - idx,
        {
            let ghost before = out@;
            match instructions[idx] {
                Instruction::SetCell(value) => push_numbered(
                    &mut out,
                    "\t*cursor = ",
                    value.into_u32() as u64,
                    ";\n",
                ),
                Instruction::Write => out.append("\tputchar(*cursor);\n"),
                Instruction::Read => out.append(
                    "\t*cursor = getchar(); if (*cursor == EOF) { *cursor = 0; }\n",
                ),
                Instruction::LoopStart(_) => out.append("\twhile (*cursor != 0) {\n"),
                Instruction::LoopEnd(_) => out.append("\t}\n"),
                Instruction::Inc(by) => push_numbered(
                    &mut out,
                    "\t*cursor += ",
                    by.get().into_u32() as u64,
                    ";\n",
                ),
                Instruction::Dec(by) => push_numbered(
                    &mut out,
                    "\t*cursor -= ",
                    by.get().into_u32() as u64,
                    ";\n",
                ),
                Instruction::IncPtr(by) => push_numbered(
                    &mut out,
                    "\tcursor += ",
                    by.get() as u64,
                    ";\n",
                ),
                Instruction::DecPtr(by) => push_numbered(
                    &mut out,
                    "\tcursor -= ",
                    by.get() as u64,
                    ";\n",
                ),
            }
            idx += 1;
            proof {
                assert(out@ == before + c_statement(self@[idx - 1]));
                assert(out@ =~= c_prologue(T::c_type_name(), self.array_size() as nat)
                    + c_statements(self@, idx as int));
            }
        }
        out.append("}\n");
        out
    }
}

} // verus!
