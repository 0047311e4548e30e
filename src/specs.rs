use vstd::prelude::*;

verus! {

/// The syntactic and semantic shape of an instruction argument.
#[derive(Debug, PartialEq, Eq, Structural, Hash, Clone, Copy)]
pub enum Operand {
    Register(Register),
    Mem8,
    Mem16,
    Const,
    Stc,
}

#[derive(Debug, PartialEq, Eq, Structural, Hash, Clone, Copy)]
pub enum Register {
    A,
    B,
    F,
    T,
    TL,
    TH,
}

/// An instruction name, possibly with a flag-dependent suffix.
#[derive(Debug, PartialEq, Eq, Hash)]
pub struct Mnemonic {
    pub name: String,
}

/// Compares a string with a word, character by character.
pub fn str_eq(s: &str, w: &str) -> (r: bool)
    ensures
        r == (s@ == w@),
{
    let n = s.unicode_len();
    let m = w.unicode_len();
    if n != m {
        return false;
    }
    let mut i: usize = 0;
    while i < n
        invariant
            n == s@.len(),
            m == w@.len(),
            n == m,
            i <= n,
            s@.subrange(0, i as int) =~= w@.subrange(0, i as int),
        decreases n - i,
    {
        if s.get_char(i) != w.get_char(i) {
            return false;
        }
        proof {
            assert(s@.subrange(0, i + 1) =~= s@.subrange(0, i as int).push(s@[i as int]));
            assert(w@.subrange(0, i + 1) =~= w@.subrange(0, i as int).push(w@[i as int]));
        }
        i = i + 1;
    }
    proof {
        assert(s@ =~= s@.subrange(0, n as int));
        assert(w@ =~= w@.subrange(0, n as int));
    }
    true
}

/// The register that a name denotes.
pub open spec fn register_named(s: Seq<char>) -> Option<Register> {
    if s == "A"@ {
        Some(Register::A)
    } else if s == "B"@ {
        Some(Register::B)
    } else if s == "F"@ {
        Some(Register::F)
    } else if s == "T"@ {
        Some(Register::T)
    } else if s == "TL"@ {
        Some(Register::TL)
    } else if s == "TH"@ {
        Some(Register::TH)
    } else {
        None
    }
}

/// The operand kind that a name of the instruction-set description denotes.
pub open spec fn operand_named(s: Seq<char>) -> Option<Operand> {
    match register_named(s) {
        Some(r) => Some(Operand::Register(r)),
        None => if s == "CONST"@ {
            Some(Operand::Const)
        } else if s == "MEM8"@ || s == "MEMZP"@ {
            Some(Operand::Mem8)
        } else if s == "MEM"@ || s == "MEM16"@ {
            Some(Operand::Mem16)
        } else if s == "STC"@ {
            Some(Operand::Stc)
        } else {
            None
        },
    }
}

/// The fixed mnemonic vocabulary that the lexer recognises.
pub open spec fn is_mnemonic_name(s: Seq<char>) -> bool {
    ||| s == "NOP"@
    ||| s == "MOV"@
    ||| s == "PUSH"@
    ||| s == "POP"@
    ||| s == "JMP"@
    ||| s == "ADD"@
    ||| s == "SUB"@
    ||| s == "OR"@
    ||| s == "AND"@
    ||| s == "NEG"@
    ||| s == "INV"@
    ||| s == "SHR"@
    ||| s == "SHL"@
    ||| s == "CMP"@
    ||| s == "HALT"@
}

impl Register {
    pub fn from_str(s: &str) -> (r: Result<Register, ()>)
        ensures
            r == (match register_named(s@) {
                Some(x) => Ok::<Register, ()>(x),
                None => Err(()),
            }),
    {
        if str_eq(s, "A") {
            Ok(Register::A)
        } else if str_eq(s, "B") {
            Ok(Register::B)
        } else if str_eq(s, "F") {
            Ok(Register::F)
        } else if str_eq(s, "T") {
            Ok(Register::T)
        } else if str_eq(s, "TL") {
            Ok(Register::TL)
        } else if str_eq(s, "TH") {
            Ok(Register::TH)
        } else {
            Err(())
        }
    }
}

impl Operand {
    pub fn from_str(s: &str) -> (r: Result<Operand, ()>)
        ensures
            r == (match operand_named(s@) {
                Some(x) => Ok::<Operand, ()>(x),
                None => Err(()),
            }),
    {
        if let Ok(register) = Register::from_str(s) {
            return Ok(Operand::Register(register));
        }
        if str_eq(s, "CONST") {
            return Ok(Operand::Const);
        }
        if str_eq(s, "MEM8") || str_eq(s, "MEMZP") {
            return Ok(Operand::Mem8);
        }
        if str_eq(s, "MEM") || str_eq(s, "MEM16") {
            return Ok(Operand::Mem16);
        }
        if str_eq(s, "STC") {
            return Ok(Operand::Stc);
        }
        Err(())
    }
}

impl View for Mnemonic {
    type V = Seq<char>;

    open spec fn view(&self) -> Seq<char> {
        self.name@
    }
}

impl Clone for Mnemonic {
    fn clone(&self) -> (r: Self)
        ensures
            r == *self,
    {
        Mnemonic { name: self.name.clone() }
    }
}

impl Mnemonic {
    pub fn new(name: String) -> (r: Self)
        ensures
            r.name == name,
    {
        Self { name }
    }

    /// Recognises a name of the fixed mnemonic vocabulary.
    pub fn from_str(s: &str) -> (r: Result<Mnemonic, ()>)
        ensures
            r is Ok <==> is_mnemonic_name(s@),
            r matches Ok(m) ==> m@ == s@,
    {
        let known = str_eq(s, "NOP") || str_eq(s, "MOV") || str_eq(s, "PUSH") || str_eq(s, "POP")
            || str_eq(s, "JMP") || str_eq(s, "ADD") || str_eq(s, "SUB") || str_eq(s, "OR")
            || str_eq(s, "AND") || str_eq(s, "NEG") || str_eq(s, "INV") || str_eq(s, "SHR")
            || str_eq(s, "SHL") || str_eq(s, "CMP") || str_eq(s, "HALT");
        if known {
            Ok(Mnemonic { name: s.to_string() })
        } else {
            Err(())
        }
    }
}

} // verus!
