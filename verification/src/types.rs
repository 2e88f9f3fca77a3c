//! Core data model: opcodes, types, values, flattened instruction records,
//! and the per-function store that the encoder builds.
use vstd::prelude::*;
use vstd::string::StrSliceExecFns;

verus! {

/// Error taxonomy shared by the encoder, the persistence layer, the
/// interpreter and the decoder. Every error is fatal to the unit of work
/// (function, file or run) that raised it.
#[derive(Debug, PartialEq, Eq, Structural, Clone, Copy)]
pub enum FlatError {
    /// The input tree is malformed (empty name, empty list, absent field
    /// that the instruction kind requires).
    ParseShape,
    /// An opcode mnemonic is not one of the fixed set.
    InvalidOpcode,
    /// An instruction carries the wrong number of arguments or labels.
    ArityMismatch,
    /// An operand has the wrong value variant.
    TypeMismatch,
    /// An argument name is not bound in the current environment.
    UnboundVariable,
    /// A jump target has no matching label marker.
    UnknownLabel,
    /// A serialized region is truncated or its table of contents is
    /// inconsistent with the bytes available.
    CorruptBinary,
    /// A `const` instruction carries no value.
    NullValue,
    /// A name buffer slice is not valid UTF-8.
    InvalidEncoding,
}

/// Primitive types: `Int` or `Bool`; `Null` marks an absent type when the
/// field is stored inline in a fixed-width record.
#[derive(Debug, PartialEq, Eq, Structural, Clone, Copy)]
pub enum Type {
    Int,
    Bool,
    Null,
}

/// Runtime values: 64-bit integers or booleans; `Null` marks an absent
/// value when the field is stored inline in a fixed-width record.
#[derive(Debug, PartialEq, Eq, Structural, Clone, Copy)]
pub enum BrilValue {
    IntVal(i64),
    BoolVal(bool),
    Null,
}

/// The closed set of opcodes, each mapped to a stable index `0..NUM_OPCODES`
/// by `get_index` and back by `u32_to_opcode`.
#[derive(Debug, PartialEq, Eq, Structural, Clone, Copy)]
pub enum Opcode {
    // Arithmetic
    Add,
    Mul,
    Sub,
    Div,
    // Comparison
    Eq,
    Lt,
    Gt,
    Le,
    Ge,
    // Logic
    Not,
    And,
    Or,
    // Control flow
    Jmp,
    Br,
    Call,
    Ret,
    // Misc
    Id,
    Print,
    Nop,
    Const,
}

/// Number of distinct opcodes.
pub const NUM_OPCODES: usize = 20;

/// The stable integer assigned to each opcode.
pub open spec fn op_index(op: Opcode) -> u32 {
    match op {
        Opcode::Add => 0,
        Opcode::Mul => 1,
        Opcode::Sub => 2,
        Opcode::Div => 3,
        Opcode::Eq => 4,
        Opcode::Lt => 5,
        Opcode::Gt => 6,
        Opcode::Le => 7,
        Opcode::Ge => 8,
        Opcode::Not => 9,
        Opcode::And => 10,
        Opcode::Or => 11,
        Opcode::Jmp => 12,
        Opcode::Br => 13,
        Opcode::Call => 14,
        Opcode::Ret => 15,
        Opcode::Id => 16,
        Opcode::Print => 17,
        Opcode::Nop => 18,
        Opcode::Const => 19,
    }
}

/// The opcode assigned to an index, if the index is in range.
pub open spec fn op_of_index(v: u32) -> Option<Opcode> {
    if v == 0 {
        Some(Opcode::Add)
    } else if v == 1 {
        Some(Opcode::Mul)
    } else if v == 2 {
        Some(Opcode::Sub)
    } else if v == 3 {
        Some(Opcode::Div)
    } else if v == 4 {
        Some(Opcode::Eq)
    } else if v == 5 {
        Some(Opcode::Lt)
    } else if v == 6 {
        Some(Opcode::Gt)
    } else if v == 7 {
        Some(Opcode::Le)
    } else if v == 8 {
        Some(Opcode::Ge)
    } else if v == 9 {
        Some(Opcode::Not)
    } else if v == 10 {
        Some(Opcode::And)
    } else if v == 11 {
        Some(Opcode::Or)
    } else if v == 12 {
        Some(Opcode::Jmp)
    } else if v == 13 {
        Some(Opcode::Br)
    } else if v == 14 {
        Some(Opcode::Call)
    } else if v == 15 {
        Some(Opcode::Ret)
    } else if v == 16 {
        Some(Opcode::Id)
    } else if v == 17 {
        Some(Opcode::Print)
    } else if v == 18 {
        Some(Opcode::Nop)
    } else if v == 19 {
        Some(Opcode::Const)
    } else {
        None
    }
}

/// The two index maps invert each other on their domains.
pub proof fn lemma_op_index_bijection()
    ensures
        forall|op: Opcode| op_of_index(#[trigger] op_index(op)) == Some(op),
        forall|v: u32| #[trigger] op_of_index(v) matches Some(op) ==> op_index(op) == v,
{
}

impl Opcode {
    /// Converts a stable index back to its `Opcode`. Indexes at or above
    /// `NUM_OPCODES` correspond to no opcode and are excluded.
    pub fn u32_to_opcode(v: u32) -> (op: Self)
        requires
            v < NUM_OPCODES as u32,
        ensures
            op_index(op) == v,
            op_of_index(v) == Some(op),
    {
        if v == 0 {
            Opcode::Add
        } else if v == 1 {
            Opcode::Mul
        } else if v == 2 {
            Opcode::Sub
        } else if v == 3 {
            Opcode::Div
        } else if v == 4 {
            Opcode::Eq
        } else if v == 5 {
            Opcode::Lt
        } else if v == 6 {
            Opcode::Gt
        } else if v == 7 {
            Opcode::Le
        } else if v == 8 {
            Opcode::Ge
        } else if v == 9 {
            Opcode::Not
        } else if v == 10 {
            Opcode::And
        } else if v == 11 {
            Opcode::Or
        } else if v == 12 {
            Opcode::Jmp
        } else if v == 13 {
            Opcode::Br
        } else if v == 14 {
            Opcode::Call
        } else if v == 15 {
            Opcode::Ret
        } else if v == 16 {
            Opcode::Id
        } else if v == 17 {
            Opcode::Print
        } else if v == 18 {
            Opcode::Nop
        } else {
            Opcode::Const
        }
    }

    /// True for the unary value operations.
    pub open spec fn spec_is_unop(self) -> bool {
        self == Opcode::Not || self == Opcode::Id
    }

    /// True for the binary value operations (arithmetic, comparison, logic).
    pub open spec fn spec_is_binop(self) -> bool {
        ||| self == Opcode::Add
        ||| self == Opcode::Mul
        ||| self == Opcode::Sub
        ||| self == Opcode::Div
        ||| self == Opcode::Eq
        ||| self == Opcode::Lt
        ||| self == Opcode::Gt
        ||| self == Opcode::Le
        ||| self == Opcode::Ge
        ||| self == Opcode::And
        ||| self == Opcode::Or
    }

    /// True for the control-flow operations.
    pub open spec fn spec_is_control(self) -> bool {
        ||| self == Opcode::Jmp
        ||| self == Opcode::Br
        ||| self == Opcode::Call
        ||| self == Opcode::Ret
    }

    /// Runtime test for a unary value operation.
    pub fn is_unop(&self) -> (r: bool)
        ensures
            r == self.spec_is_unop(),
    {
        matches!(self, Opcode::Not | Opcode::Id)
    }

    /// Runtime test for a binary value operation.
    pub fn is_binop(&self) -> (r: bool)
        ensures
            r == self.spec_is_binop(),
    {
        matches!(
            self,
            Opcode::Add | Opcode::Mul | Opcode::Sub | Opcode::Div | Opcode::Eq | Opcode::Lt
                | Opcode::Gt | Opcode::Le | Opcode::Ge | Opcode::And | Opcode::Or
        )
    }

    /// Extracts the stable index of the opcode.
    pub fn get_index(&self) -> (idx: usize)
        ensures
            idx == op_index(*self),
            idx < NUM_OPCODES,
    {
        match self {
            Opcode::Add => 0,
            Opcode::Mul => 1,
            Opcode::Sub => 2,
            Opcode::Div => 3,
            Opcode::Eq => 4,
            Opcode::Lt => 5,
            Opcode::Gt => 6,
            Opcode::Le => 7,
            Opcode::Ge => 8,
            Opcode::Not => 9,
            Opcode::And => 10,
            Opcode::Or => 11,
            Opcode::Jmp => 12,
            Opcode::Br => 13,
            Opcode::Call => 14,
            Opcode::Ret => 15,
            Opcode::Id => 16,
            Opcode::Print => 17,
            Opcode::Nop => 18,
            Opcode::Const => 19,
        }
    }
}

/// The mnemonic of each opcode, as a character sequence.
pub open spec fn opcode_text(op: Opcode) -> Seq<char> {
    match op {
        Opcode::Add => seq!['a', 'd', 'd'],
        Opcode::Mul => seq!['m', 'u', 'l'],
        Opcode::Sub => seq!['s', 'u', 'b'],
        Opcode::Div => seq!['d', 'i', 'v'],
        Opcode::Eq => seq!['e', 'q'],
        Opcode::Lt => seq!['l', 't'],
        Opcode::Gt => seq!['g', 't'],
        Opcode::Le => seq!['l', 'e'],
        Opcode::Ge => seq!['g', 'e'],
        Opcode::Not => seq!['n', 'o', 't'],
        Opcode::And => seq!['a', 'n', 'd'],
        Opcode::Or => seq!['o', 'r'],
        Opcode::Jmp => seq!['j', 'm', 'p'],
        Opcode::Br => seq!['b', 'r'],
        Opcode::Call => seq!['c', 'a', 'l', 'l'],
        Opcode::Ret => seq!['r', 'e', 't'],
        Opcode::Id => seq!['i', 'd'],
        Opcode::Print => seq!['p', 'r', 'i', 'n', 't'],
        Opcode::Nop => seq!['n', 'o', 'p'],
        Opcode::Const => seq!['c', 'o', 'n', 's', 't'],
    }
}

/// The opcode whose mnemonic is `s`, if any. Written as a decision tree over
/// the length and the characters of `s`, so that it is defined on every
/// character sequence.
pub open spec fn opcode_of_text(s: Seq<char>) -> Option<Opcode> {
    if s.len() == 2 {
        if s[0] == 'e' && s[1] == 'q' {
            Some(Opcode::Eq)
        } else if s[0] == 'l' && s[1] == 't' {
            Some(Opcode::Lt)
        } else if s[0] == 'g' && s[1] == 't' {
            Some(Opcode::Gt)
        } else if s[0] == 'l' && s[1] == 'e' {
            Some(Opcode::Le)
        } else if s[0] == 'g' && s[1] == 'e' {
            Some(Opcode::Ge)
        } else if s[0] == 'o' && s[1] == 'r' {
            Some(Opcode::Or)
        } else if s[0] == 'b' && s[1] == 'r' {
            Some(Opcode::Br)
        } else if s[0] == 'i' && s[1] == 'd' {
            Some(Opcode::Id)
        } else {
            None
        }
    } else if s.len() == 3 {
        if s[0] == 'a' && s[1] == 'd' && s[2] == 'd' {
            Some(Opcode::Add)
        } else if s[0] == 'm' && s[1] == 'u' && s[2] == 'l' {
            Some(Opcode::Mul)
        } else if s[0] == 's' && s[1] == 'u' && s[2] == 'b' {
            Some(Opcode::Sub)
        } else if s[0] == 'd' && s[1] == 'i' && s[2] == 'v' {
            Some(Opcode::Div)
        } else if s[0] == 'n' && s[1] == 'o' && s[2] == 't' {
            Some(Opcode::Not)
        } else if s[0] == 'a' && s[1] == 'n' && s[2] == 'd' {
            Some(Opcode::And)
        } else if s[0] == 'j' && s[1] == 'm' && s[2] == 'p' {
            Some(Opcode::Jmp)
        } else if s[0] == 'r' && s[1] == 'e' && s[2] == 't' {
            Some(Opcode::Ret)
        } else if s[0] == 'n' && s[1] == 'o' && s[2] == 'p' {
            Some(Opcode::Nop)
        } else {
            None
        }
    } else if s.len() == 4 {
        if s[0] == 'c' && s[1] == 'a' && s[2] == 'l' && s[3] == 'l' {
            Some(Opcode::Call)
        } else {
            None
        }
    } else if s.len() == 5 {
        if s[0] == 'p' && s[1] == 'r' && s[2] == 'i' && s[3] == 'n' && s[4] == 't' {
            Some(Opcode::Print)
        } else if s[0] == 'c' && s[1] == 'o' && s[2] == 'n' && s[3] == 's' && s[4] == 't' {
            Some(Opcode::Const)
        } else {
            None
        }
    } else {
        None
    }
}

/// The mnemonic table is a bijection: reading a mnemonic back yields the
/// opcode it was printed from.
pub proof fn lemma_opcode_text_round_trip()
    ensures
        forall|op: Opcode| opcode_of_text(#[trigger] opcode_text(op)) == Some(op),
{
    assert forall|op: Opcode| opcode_of_text(#[trigger] opcode_text(op)) == Some(op) by {
        match op {
            Opcode::Add => assert(opcode_of_text(opcode_text(op)) == Some(op)),
            Opcode::Mul => assert(opcode_of_text(opcode_text(op)) == Some(op)),
            Opcode::Sub => assert(opcode_of_text(opcode_text(op)) == Some(op)),
            Opcode::Div => assert(opcode_of_text(opcode_text(op)) == Some(op)),
            Opcode::Eq => assert(opcode_of_text(opcode_text(op)) == Some(op)),
            Opcode::Lt => assert(opcode_of_text(opcode_text(op)) == Some(op)),
            Opcode::Gt => assert(opcode_of_text(opcode_text(op)) == Some(op)),
            Opcode::Le => assert(opcode_of_text(opcode_text(op)) == Some(op)),
            Opcode::Ge => assert(opcode_of_text(opcode_text(op)) == Some(op)),
            Opcode::Not => assert(opcode_of_text(opcode_text(op)) == Some(op)),
            Opcode::And => assert(opcode_of_text(opcode_text(op)) == Some(op)),
            Opcode::Or => assert(opcode_of_text(opcode_text(op)) == Some(op)),
            Opcode::Jmp => assert(opcode_of_text(opcode_text(op)) == Some(op)),
            Opcode::Br => assert(opcode_of_text(opcode_text(op)) == Some(op)),
            Opcode::Call => assert(opcode_of_text(opcode_text(op)) == Some(op)),
            Opcode::Ret => assert(opcode_of_text(opcode_text(op)) == Some(op)),
            Opcode::Id => assert(opcode_of_text(opcode_text(op)) == Some(op)),
            Opcode::Print => assert(opcode_of_text(opcode_text(op)) == Some(op)),
            Opcode::Nop => assert(opcode_of_text(opcode_text(op)) == Some(op)),
            Opcode::Const => assert(opcode_of_text(opcode_text(op)) == Some(op)),
        }
    }
}

/// A character sequence resolves to at most one opcode, and only to the
/// opcode whose mnemonic it is.
pub proof fn lemma_opcode_text_injective(s: Seq<char>, op: Opcode)
    requires
        opcode_of_text(s) == Some(op),
    ensures
        s == opcode_text(op),
{
    match op {
        Opcode::Add => assert(s =~= opcode_text(op)),
        Opcode::Mul => assert(s =~= opcode_text(op)),
        Opcode::Sub => assert(s =~= opcode_text(op)),
        Opcode::Div => assert(s =~= opcode_text(op)),
        Opcode::Eq => assert(s =~= opcode_text(op)),
        Opcode::Lt => assert(s =~= opcode_text(op)),
        Opcode::Gt => assert(s =~= opcode_text(op)),
        Opcode::Le => assert(s =~= opcode_text(op)),
        Opcode::Ge => assert(s =~= opcode_text(op)),
        Opcode::Not => assert(s =~= opcode_text(op)),
        Opcode::And => assert(s =~= opcode_text(op)),
        Opcode::Or => assert(s =~= opcode_text(op)),
        Opcode::Jmp => assert(s =~= opcode_text(op)),
        Opcode::Br => assert(s =~= opcode_text(op)),
        Opcode::Call => assert(s =~= opcode_text(op)),
        Opcode::Ret => assert(s =~= opcode_text(op)),
        Opcode::Id => assert(s =~= opcode_text(op)),
        Opcode::Print => assert(s =~= opcode_text(op)),
        Opcode::Nop => assert(s =~= opcode_text(op)),
        Opcode::Const => assert(s =~= opcode_text(op)),
    }
}

impl Opcode {
    /// The mnemonic of the opcode.
    pub fn as_str(&self) -> (r: &str)
        ensures
            r@ == opcode_text(*self),
    {
        proof {
            reveal_strlit("add");
            reveal_strlit("mul");
            reveal_strlit("sub");
            reveal_strlit("div");
            reveal_strlit("eq");
            reveal_strlit("lt");
            reveal_strlit("gt");
            reveal_strlit("le");
            reveal_strlit("ge");
            reveal_strlit("not");
            reveal_strlit("and");
            reveal_strlit("or");
            reveal_strlit("jmp");
            reveal_strlit("br");
            reveal_strlit("call");
            reveal_strlit("ret");
            reveal_strlit("id");
            reveal_strlit("print");
            reveal_strlit("nop");
            reveal_strlit("const");
        }
        let r: &str = match self {
            Opcode::Add => "add",
            Opcode::Mul => "mul",
            Opcode::Sub => "sub",
            Opcode::Div => "div",
            Opcode::Eq => "eq",
            Opcode::Lt => "lt",
            Opcode::Gt => "gt",
            Opcode::Le => "le",
            Opcode::Ge => "ge",
            Opcode::Not => "not",
            Opcode::And => "and",
            Opcode::Or => "or",
            Opcode::Jmp => "jmp",
            Opcode::Br => "br",
            Opcode::Call => "call",
            Opcode::Ret => "ret",
            Opcode::Id => "id",
            Opcode::Print => "print",
            Opcode::Nop => "nop",
            Opcode::Const => "const",
        };
        proof {
            assert(r@ =~= opcode_text(*self));
        }
        r
    }

    /// The mnemonic of the opcode with stable index `op_idx`, as an owned
    /// string.
    pub fn op_idx_to_op_str(op_idx: usize) -> (r: String)
        requires
            op_idx < NUM_OPCODES,
        ensures
            op_of_index(op_idx as u32) matches Some(op) && r@ == opcode_text(op),
    {
        let op = Opcode::u32_to_opcode(op_idx as u32);
        op.as_str().to_owned()
    }

    /// Resolves a mnemonic to its opcode; `None` when the text is not one of
    /// the fixed mnemonics.
    pub fn opcode_from_text(s: &str) -> (r: Option<Opcode>)
        ensures
            r == opcode_of_text(s@),
    {
        let n = s.unicode_len();
        if n == 2 {
            let c0 = s.get_char(0);
            let c1 = s.get_char(1);
            if c0 == 'e' && c1 == 'q' {
                Some(Opcode::Eq)
            } else if c0 == 'l' && c1 == 't' {
                Some(Opcode::Lt)
            } else if c0 == 'g' && c1 == 't' {
                Some(Opcode::Gt)
            } else if c0 == 'l' && c1 == 'e' {
                Some(Opcode::Le)
            } else if c0 == 'g' && c1 == 'e' {
                Some(Opcode::Ge)
            } else if c0 == 'o' && c1 == 'r' {
                Some(Opcode::Or)
            } else if c0 == 'b' && c1 == 'r' {
                Some(Opcode::Br)
            } else if c0 == 'i' && c1 == 'd' {
                Some(Opcode::Id)
            } else {
                None
            }
        } else if n == 3 {
            let c0 = s.get_char(0);
            let c1 = s.get_char(1);
            let c2 = s.get_char(2);
            if c0 == 'a' && c1 == 'd' && c2 == 'd' {
                Some(Opcode::Add)
            } else if c0 == 'm' && c1 == 'u' && c2 == 'l' {
                Some(Opcode::Mul)
            } else if c0 == 's' && c1 == 'u' && c2 == 'b' {
                Some(Opcode::Sub)
            } else if c0 == 'd' && c1 == 'i' && c2 == 'v' {
                Some(Opcode::Div)
            } else if c0 == 'n' && c1 == 'o' && c2 == 't' {
                Some(Opcode::Not)
            } else if c0 == 'a' && c1 == 'n' && c2 == 'd' {
                Some(Opcode::And)
            } else if c0 == 'j' && c1 == 'm' && c2 == 'p' {
                Some(Opcode::Jmp)
            } else if c0 == 'r' && c1 == 'e' && c2 == 't' {
                Some(Opcode::Ret)
            } else if c0 == 'n' && c1 == 'o' && c2 == 'p' {
                Some(Opcode::Nop)
            } else {
                None
            }
        } else if n == 4 {
            let c0 = s.get_char(0);
            let c1 = s.get_char(1);
            let c2 = s.get_char(2);
            let c3 = s.get_char(3);
            if c0 == 'c' && c1 == 'a' && c2 == 'l' && c3 == 'l' {
                Some(Opcode::Call)
            } else {
                None
            }
        } else if n == 5 {
            let c0 = s.get_char(0);
            let c1 = s.get_char(1);
            let c2 = s.get_char(2);
            let c3 = s.get_char(3);
            let c4 = s.get_char(4);
            if c0 == 'p' && c1 == 'r' && c2 == 'i' && c3 == 'n' && c4 == 't' {
                Some(Opcode::Print)
            } else if c0 == 'c' && c1 == 'o' && c2 == 'n' && c3 == 's' && c4 == 't' {
                Some(Opcode::Const)
            } else {
                None
            }
        } else {
            None
        }
    }
}

/// A string literal storing all distinct mnemonics, concatenated in stable
/// index order. `get_buffer_start_end_indexes` locates each mnemonic in it.
pub const OPCODE_BUFFER: &'static str =
    "addmulsubdiveqltgtlegenotandorjmpbrcallretidprintnopconst";

/// The inclusive `(start, end)` character range of each mnemonic inside
/// `OPCODE_BUFFER`.
pub open spec fn opcode_span(op: Opcode) -> (int, int) {
    match op {
        Opcode::Add => (0, 2),
        Opcode::Mul => (3, 5),
        Opcode::Sub => (6, 8),
        Opcode::Div => (9, 11),
        Opcode::Eq => (12, 13),
        Opcode::Lt => (14, 15),
        Opcode::Gt => (16, 17),
        Opcode::Le => (18, 19),
        Opcode::Ge => (20, 21),
        Opcode::Not => (22, 24),
        Opcode::And => (25, 27),
        Opcode::Or => (28, 29),
        Opcode::Jmp => (30, 32),
        Opcode::Br => (33, 34),
        Opcode::Call => (35, 38),
        Opcode::Ret => (39, 41),
        Opcode::Id => (42, 43),
        Opcode::Print => (44, 48),
        Opcode::Nop => (49, 51),
        Opcode::Const => (52, 56),
    }
}

/// Slicing `OPCODE_BUFFER` at an opcode's span yields exactly that opcode's
/// mnemonic: the shared buffer and the per-opcode text agree.
pub proof fn lemma_opcode_buffer_spans()
    ensures
        forall|op: Opcode|
            {
                let (start, end) = #[trigger] opcode_span(op);
                &&& 0 <= start <= end < OPCODE_BUFFER@.len()
                &&& OPCODE_BUFFER@.subrange(start, end + 1) == opcode_text(op)
            },
{
    reveal_strlit("addmulsubdiveqltgtlegenotandorjmpbrcallretidprintnopconst");
    assert forall|op: Opcode|
        {
            let (start, end) = #[trigger] opcode_span(op);
            &&& 0 <= start <= end < OPCODE_BUFFER@.len()
            &&& OPCODE_BUFFER@.subrange(start, end + 1) == opcode_text(op)
        } by {
        let (start, end) = opcode_span(op);
        assert(OPCODE_BUFFER@.subrange(start, end + 1) =~= opcode_text(op));
    }
}

impl Opcode {
    /// Returns the inclusive `(start, end)` indexes of the opcode's mnemonic
    /// in `OPCODE_BUFFER`.
    pub fn get_buffer_start_end_indexes(&self) -> (r: (usize, usize))
        ensures
            r.0 as int == opcode_span(*self).0,
            r.1 as int == opcode_span(*self).1,
            r.0 <= r.1,
    {
        match self {
            Opcode::Add => (0, 2),
            Opcode::Mul => (3, 5),
            Opcode::Sub => (6, 8),
            Opcode::Div => (9, 11),
            Opcode::Eq => (12, 13),
            Opcode::Lt => (14, 15),
            Opcode::Gt => (16, 17),
            Opcode::Le => (18, 19),
            Opcode::Ge => (20, 21),
            Opcode::Not => (22, 24),
            Opcode::And => (25, 27),
            Opcode::Or => (28, 29),
            Opcode::Jmp => (30, 32),
            Opcode::Br => (33, 34),
            Opcode::Call => (35, 38),
            Opcode::Ret => (39, 41),
            Opcode::Id => (42, 43),
            Opcode::Print => (44, 48),
            Opcode::Nop => (49, 51),
            Opcode::Const => (52, 56),
        }
    }
}

/// The text of each type tag.
pub open spec fn type_text(ty: Type) -> Seq<char> {
    match ty {
        Type::Int => seq!['i', 'n', 't'],
        Type::Bool => seq!['b', 'o', 'o', 'l'],
        Type::Null => seq!['n', 'u', 'l', 'l'],
    }
}

impl Type {
    /// Converts a `Type` to its string representation.
    pub fn as_str(&self) -> (r: &str)
        ensures
            r@ == type_text(*self),
    {
        proof {
            reveal_strlit("int");
            reveal_strlit("bool");
            reveal_strlit("null");
        }
        let r: &str = match self {
            Type::Int => "int",
            Type::Bool => "bool",
            Type::Null => "null",
        };
        proof {
            assert(r@ =~= type_text(*self));
        }
        r
    }
}

/// Marker stored in a fixed-width field whose optional value is absent.
/// No real index can take this value: a span's end index is always strictly
/// below the length of its buffer, which is at most `u32::MAX`.
pub const ABSENT_IDX: u32 = 0xFFFF_FFFF;

/// Opcode slot of a fixed-width record that marks a label marker rather than
/// an instruction. It is outside `0..NUM_OPCODES`.
pub const LABEL_SENTINEL: u32 = 0xFFFF_FFFF;

/// An inclusive `(start, end)` index pair, as a named fixed-width record so
/// that span tables can be serialized uniformly.
#[derive(Debug, PartialEq, Eq, Structural, Clone, Copy)]
pub struct I32Pair {
    pub first: u32,
    pub second: u32,
}

/// Flattened form of one instruction.
/// - `op` stores the stable index of the opcode (`get_index`).
/// - `dest` stores the inclusive start and end byte indexes of the
///   destination name in the variable-name buffer.
/// - `args` and `labels` each store an inclusive index range into the
///   corresponding span table; every entry of that sub-range is itself an
///   inclusive byte range into the corresponding name buffer. Two levels of
///   indirection are needed because this record is fixed-width while an
///   instruction references a variable count of names.
/// - `funcs` stores one inclusive byte range directly into the function-name
///   buffer (at most one function is ever referenced).
/// - `ty` and `value` are small enough to live inline.
/// - Well-formedness: every present index pair satisfies `end >= start`.
#[derive(Debug, PartialEq, Eq, Structural, Clone, Copy)]
pub struct Instr {
    pub op: u32,
    pub dest: Option<I32Pair>,
    pub ty: Option<Type>,
    pub value: Option<BrilValue>,
    pub args: Option<I32Pair>,
    pub labels: Option<I32Pair>,
    pub funcs: Option<I32Pair>,
}

/// An item of a function body: a flattened instruction, or a label marker
/// represented by the inclusive byte range of its name in the label-name
/// buffer.
#[derive(Debug, PartialEq, Eq, Structural, Clone, Copy)]
pub enum InstrOrLabel {
    Instr(Instr),
    Label(I32Pair),
}

/// Fully fixed-width form of one item, ready for byte serialization.
/// Absent index pairs become `(ABSENT_IDX, ABSENT_IDX)`; an absent type or
/// value becomes the `Null` variant. A label marker is encoded with
/// `op == LABEL_SENTINEL` and its own name span stored in `labels` (a label
/// marker has no label list, so the slot is free).
#[derive(Debug, PartialEq, Eq, Structural, Clone, Copy)]
pub struct FlatInstr {
    pub op: u32,
    pub dest: I32Pair,
    pub args: I32Pair,
    pub labels: I32Pair,
    pub funcs: I32Pair,
    pub ty: Type,
    pub value: BrilValue,
}

/// The three kinds of instruction the interpreter and the decoder agree on:
/// `const`, value operation (has a destination), effect operation (has none).
/// Label markers are told apart before this classification applies.
#[derive(Debug, PartialEq, Eq, Structural, Clone, Copy)]
pub enum InstrKind {
    Const,
    ValueOp,
    EffectOp,
}

/// The kind of an instruction with opcode `op`, where `has_dest` says whether
/// its destination field is present. `const` is its own kind; `call` is a
/// value operation exactly when it has a destination; the control-flow and
/// `print`/`nop` opcodes are effect operations; everything else is a value
/// operation.
pub open spec fn spec_instr_kind(op: Opcode, has_dest: bool) -> InstrKind {
    match op {
        Opcode::Const => InstrKind::Const,
        Opcode::Print => InstrKind::EffectOp,
        Opcode::Jmp => InstrKind::EffectOp,
        Opcode::Br => InstrKind::EffectOp,
        Opcode::Ret => InstrKind::EffectOp,
        Opcode::Nop => InstrKind::EffectOp,
        Opcode::Call => if has_dest {
            InstrKind::ValueOp
        } else {
            InstrKind::EffectOp
        },
        _ => InstrKind::ValueOp,
    }
}

impl Instr {
    /// Re-derives the kind of this instruction from its opcode and the
    /// presence of its destination; the kind is never stored.
    pub fn get_instr_kind(&self) -> (kind: InstrKind)
        requires
            self.op < NUM_OPCODES as u32,
        ensures
            op_of_index(self.op) matches Some(op) && kind == spec_instr_kind(
                op,
                self.dest is Some,
            ),
    {
        let op = Opcode::u32_to_opcode(self.op);
        match op {
            Opcode::Const => InstrKind::Const,
            Opcode::Print | Opcode::Jmp | Opcode::Br | Opcode::Ret | Opcode::Nop =>
                InstrKind::EffectOp,
            Opcode::Call => {
                // A call is a value operation exactly when it binds a result.
                if self.dest.is_some() {
                    InstrKind::ValueOp
                } else {
                    InstrKind::EffectOp
                }
            },
            _ => InstrKind::ValueOp,
        }
    }
}

/// One declared parameter of a function, flattened: the inclusive byte range
/// of the parameter's name in the variable-name buffer, plus its type.
#[derive(Debug, PartialEq, Eq, Structural, Clone, Copy)]
pub struct FuncArg {
    pub arg_name_idxes: I32Pair,
    pub arg_type: Type,
}

/// One function's owned flattened aggregate: the name buffers, the two span
/// tables, the item list, and the function metadata. Built by the encoder,
/// consumed by the persistence layer and the decoder.
/// - `args_idxes_store` holds spans into `var_store`;
/// - `labels_idxes_store` holds spans into `labels_store`;
/// - `funcs_store` holds called-function names addressed directly from the
///   instruction records;
/// - `instrs_and_labels` keeps the items in source order.
#[derive(Debug, PartialEq, Eq, Clone)]
pub struct InstrStore {
    pub func_name: Vec<u8>,
    pub func_args: Vec<FuncArg>,
    pub func_ret_ty: Option<Type>,
    pub var_store: Vec<u8>,
    pub args_idxes_store: Vec<I32Pair>,
    pub labels_idxes_store: Vec<I32Pair>,
    pub labels_store: Vec<u8>,
    pub funcs_store: Vec<u8>,
    pub instrs_and_labels: Vec<InstrOrLabel>,
}

/// One declared parameter of a function in tree form: its name bytes and its
/// type.
#[derive(Debug, PartialEq, Eq, Clone)]
pub struct FuncParam {
    pub name: Vec<u8>,
    pub ty: Type,
}

/// One instruction of the input tree, before flattening. Names are carried
/// as their UTF-8 bytes; the opcode is carried as its mnemonic text.
#[derive(Debug, PartialEq, Eq, Clone)]
pub struct TreeInstr {
    pub op: String,
    pub dest: Option<Vec<u8>>,
    pub ty: Option<Type>,
    pub value: Option<BrilValue>,
    pub args: Option<Vec<Vec<u8>>>,
    pub labels: Option<Vec<Vec<u8>>>,
    pub funcs: Option<Vec<Vec<u8>>>,
}

/// One item of the input tree: a bare label marker, or an instruction.
#[derive(Debug, PartialEq, Eq, Clone)]
pub enum TreeItem {
    Label(Vec<u8>),
    Instr(TreeInstr),
}

/// One function of the input tree.
#[derive(Debug, PartialEq, Eq, Clone)]
pub struct Function {
    pub name: Vec<u8>,
    pub args: Vec<FuncParam>,
    pub ret_ty: Option<Type>,
    pub instrs: Vec<TreeItem>,
}

} // verus!
