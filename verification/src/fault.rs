//! What goes wrong, as plain values.

use vstd::prelude::*;

verus! {

/// `elf::ParseError`, carried through without being read.
#[verifier::external_type_specification]
#[verifier::external_body]
pub struct ExParseError(::elf::ParseError);

#[derive(Debug, Clone, Copy, PartialEq, Eq, Structural)]
pub enum Kind {
    NotFound,
    InvalidInput,
    InvalidData,
    UnexpectedEof,
    Interrupted,
    TimedOut,
    BrokenPipe,
    Other,
}

/// The part of an object file that the ELF reader refused.
#[derive(Debug, Clone, Copy, PartialEq, Eq, Structural)]
pub enum ElfPart {
    Object,
    Symbols,
    Sections,
    Unwind,
}

#[derive(Debug)]
pub enum Fault {
    /// An error number of the operating system.
    Os(i32),
    /// The ELF reader's own error, and what it was reading.
    Elf { part: ElfPart, cause: ::elf::ParseError },
    /// A refusal in words.
    Told { kind: Kind, text: String },
}

/// Whether `f` is a refusal of that kind in those words.
pub open spec fn told(f: Fault, kind: Kind, text: Seq<char>) -> bool {
    match f {
        Fault::Told { kind: k, text: t } => k == kind && t@ == text,
        _ => false,
    }
}

/// The kind of a failure. An error number has the kind that the system's
/// documentation gives it.
pub open spec fn kind_of(f: Fault) -> Kind {
    match f {
        Fault::Os(code) => if code == 2 {
            Kind::NotFound
        } else if code == 4 {
            Kind::Interrupted
        } else if code == 22 {
            Kind::InvalidInput
        } else if code == 32 {
            Kind::BrokenPipe
        } else if code == 110 {
            Kind::TimedOut
        } else {
            Kind::Other
        },
        Fault::Elf { .. } => Kind::InvalidData,
        Fault::Told { kind, .. } => kind,
    }
}

impl Fault {
    /// The kind of a failure.
    pub fn kind(&self) -> (r: Kind)
        ensures
            r == kind_of(*self),
    {
        match self {
            Fault::Os(2) => Kind::NotFound,
            Fault::Os(4) => Kind::Interrupted,
            Fault::Os(22) => Kind::InvalidInput,
            Fault::Os(32) => Kind::BrokenPipe,
            Fault::Os(110) => Kind::TimedOut,
            Fault::Os(_) => Kind::Other,
            Fault::Elf { .. } => Kind::InvalidData,
            Fault::Told { kind, .. } => *kind,
        }
    }
}

/// Whether `f` is the ELF reader's refusal of that part.
pub open spec fn refused(f: Fault, part: ElfPart) -> bool {
    match f {
        Fault::Elf { part: p, .. } => p == part,
        _ => false,
    }
}

/// What an operation comes to: a value, a refusal in words, or a refusal by
/// the ELF reader.
pub enum Outcome<T> {
    Got(T),
    Told(Kind, Seq<char>),
    Refused(ElfPart),
}

/// Whether `f` is the failure that an operation comes to.
pub open spec fn fails<T>(outcome: Outcome<T>, f: Fault) -> bool {
    match outcome {
        Outcome::Got(_) => false,
        Outcome::Told(kind, text) => told(f, kind, text),
        Outcome::Refused(part) => refused(f, part),
    }
}

/// A refusal of that kind in those words.
pub fn tell(kind: Kind, text: &str) -> (r: Fault)
    ensures
        told(r, kind, text@),
{
    Fault::Told { kind, text: text.to_owned() }
}

/// A refusal of that kind in those words.
pub fn tell_owned(kind: Kind, text: String) -> (r: Fault)
    ensures
        told(r, kind, text@),
{
    Fault::Told { kind, text }
}

/// The kind of a failed call goes by its error number: a missing file, an
/// interruption, a bad argument, a broken pipe and a timeout are told apart,
/// and nothing else is taken for one of them. Other failures keep the kind
/// that they were told with.
pub proof fn lemma_kinds_of_failures(code: i32, kind: Kind, text: String)
    ensures
        kind_of(Fault::Os(code)) is NotFound <==> code == 2,
        kind_of(Fault::Os(code)) is Interrupted <==> code == 4,
        kind_of(Fault::Os(code)) is InvalidInput <==> code == 22,
        kind_of(Fault::Os(code)) is BrokenPipe <==> code == 32,
        kind_of(Fault::Os(code)) is TimedOut <==> code == 110,
        kind_of(Fault::Os(code)) is InvalidData ==> false,
        kind_of(Fault::Told { kind, text }) == kind,
{
}

/// A failure is of one kind and in one wording, and the reader's refusal of a
/// part is neither told nor a refusal of another part.
pub proof fn lemma_failures_are_told_apart(f: Fault, kind: Kind, text: Seq<char>, part: ElfPart)
    ensures
        told(f, kind, text) ==> kind_of(f) == kind && !refused(f, part),
        refused(f, part) ==> kind_of(f) is InvalidData,
        f matches Fault::Told { kind: k, text: t } ==> (told(f, kind, text) <==> k == kind && t@
            == text),
        f matches Fault::Elf { part: p, .. } ==> (refused(f, part) <==> p == part),
        fails(Outcome::<u64>::Told(kind, text), f) <==> told(f, kind, text),
        fails(Outcome::<u64>::Refused(part), f) <==> refused(f, part),
        !fails(Outcome::Got(0u64), f),
{
}

} // verus!
