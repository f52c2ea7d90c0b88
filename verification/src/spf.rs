//! The SPF policy record: its structure, and the grammar that reads it from
//! the bytes of a DNS TXT value.

use vstd::prelude::*;

pub mod ip6;
pub mod ip6_laws;
pub mod laws;
pub mod literals;
pub mod macros;
pub mod parse;
pub mod term;

verus! {

/// Why a record, or one of its terms, could not be read.
#[derive(Debug, Clone, Copy, PartialEq, Eq, Structural)]
pub enum Error {
    /// The record does not open with a version tag.
    InvalidRecord,
    /// The version tag is not `spf1` followed by a boundary.
    InvalidVersion,
    /// An argument or a terminator violates the grammar.
    ParseFailed,
    /// A macro reference is malformed.
    InvalidMacro,
    /// An IPv4 literal is malformed.
    InvalidIp4,
    /// An IPv6 literal is malformed.
    InvalidIp6,
}

/// The version of the record language.
#[derive(Debug, Clone, Copy, PartialEq, Eq, Structural)]
pub enum Version {
    Spf1,
}

/// The verdict that a matching directive yields.
#[derive(Debug, Clone, Copy, PartialEq, Eq, Structural)]
pub enum Qualifier {
    Pass,
    Fail,
    SoftFail,
    Neutral,
}

/// The variables of the macro language. The last three may appear in an
/// explanation only.
#[derive(Debug, Clone, Copy, PartialEq, Eq, Structural)]
pub enum Variable {
    Sender,
    SenderLocalPart,
    SenderDomainPart,
    Domain,
    Ip,
    ValidatedDomain,
    IpVersion,
    HeloDomain,
    SmtpIp,
    HostDomain,
    CurrentTime,
}

/// A macro-string: the argument of a mechanism or modifier.
#[derive(Debug, PartialEq, Eq)]
pub enum Macro {
    /// No argument was written.
    Empty,
    Literal(Vec<u8>),
    Variable { letter: Variable, num_parts: u32, reverse: bool, escape: bool, delimiters: u64 },
    List(Vec<Macro>),
}

/// What a directive tests the sender against. Prefix lengths are at most
/// 32 for IPv4 and 128 for IPv6. Addresses are in network order: four
/// octets, or eight groups of sixteen bits.
#[derive(Debug, PartialEq, Eq)]
#[allow(inconsistent_fields)]
pub enum Mechanism {
    All,
    Include { macro_string: Macro },
    A { macro_string: Macro, ip4_cidr_length: u8, ip6_cidr_length: u8 },
    Mx { macro_string: Macro, ip4_cidr_length: u8, ip6_cidr_length: u8 },
    Ptr { macro_string: Macro },
    Ip4 { addr: [u8; 4], cidr_length: u8 },
    Ip6 { addr: [u16; 8], cidr_length: u8 },
    Exists { macro_string: Macro },
}

/// A mechanism with the verdict that it yields where it matches.
#[derive(Debug, PartialEq, Eq)]
pub struct Directive {
    pub qualifier: Qualifier,
    pub mechanism: Mechanism,
}

/// A term that tests nothing: where to go on, or how to explain a failure.
#[derive(Debug, PartialEq, Eq)]
pub enum Modifier {
    Redirect(Macro),
    Explanation(Macro),
}

/// A parsed record. Directives and modifiers keep the order of the record.
#[derive(Debug, PartialEq, Eq)]
pub struct SPF {
    pub version: Version,
    pub directives: Vec<Directive>,
    pub modifiers: Vec<Modifier>,
}

/// The mathematical value of a [`Macro`].
pub enum MacroView {
    Empty,
    Literal(Seq<u8>),
    Variable { letter: Variable, num_parts: u32, reverse: bool, escape: bool, delimiters: u64 },
    List(Seq<MacroView>),
}

/// The mathematical value of a [`Mechanism`].
#[allow(inconsistent_fields)]
pub enum MechanismView {
    All,
    Include { macro_string: MacroView },
    A { macro_string: MacroView, ip4_cidr_length: u8, ip6_cidr_length: u8 },
    Mx { macro_string: MacroView, ip4_cidr_length: u8, ip6_cidr_length: u8 },
    Ptr { macro_string: MacroView },
    Ip4 { addr: Seq<u8>, cidr_length: u8 },
    Ip6 { addr: Seq<u16>, cidr_length: u8 },
    Exists { macro_string: MacroView },
}

/// The mathematical value of a [`Directive`].
pub struct DirectiveView {
    pub qualifier: Qualifier,
    pub mechanism: MechanismView,
}

/// The mathematical value of a [`Modifier`].
pub enum ModifierView {
    Redirect(MacroView),
    Explanation(MacroView),
}

/// The mathematical value of an [`SPF`] record.
pub struct SpfView {
    pub version: Version,
    pub directives: Seq<DirectiveView>,
    pub modifiers: Seq<ModifierView>,
}

impl MacroView {
    /// A fragment of a macro-string: literal text that is not empty, or a
    /// variable with at least one delimiter.
    pub open spec fn is_fragment(self) -> bool {
        match self {
            MacroView::Literal(bytes) => bytes.len() > 0,
            MacroView::Variable { delimiters, .. } => delimiters != 0,
            _ => false,
        }
    }

    /// What a parsed macro-string can be: a single fragment, or a list of
    /// two fragments or more. A list is never empty, and never holds a list.
    pub open spec fn wf(self) -> bool {
        match self {
            MacroView::List(items) => items.len() >= 2 && forall|k: int|
                0 <= k < items.len() ==> (#[trigger] items[k]).is_fragment(),
            _ => self.is_fragment(),
        }
    }

    /// The argument of a mechanism that may go without: none, or a parsed
    /// macro-string.
    pub open spec fn wf_or_empty(self) -> bool {
        self is Empty || self.wf()
    }
}

impl MechanismView {
    /// Prefix lengths lie within the maxima of their families, addresses
    /// have four octets or eight groups, and arguments are well-formed.
    pub open spec fn wf(self) -> bool {
        match self {
            MechanismView::All => true,
            MechanismView::Include { macro_string } => macro_string.wf(),
            MechanismView::A { macro_string, ip4_cidr_length, ip6_cidr_length } => {
                macro_string.wf_or_empty() && ip4_cidr_length <= 32 && ip6_cidr_length <= 128
            },
            MechanismView::Mx { macro_string, ip4_cidr_length, ip6_cidr_length } => {
                macro_string.wf_or_empty() && ip4_cidr_length <= 32 && ip6_cidr_length <= 128
            },
            MechanismView::Ptr { macro_string } => macro_string.wf_or_empty(),
            MechanismView::Ip4 { addr, cidr_length } => addr.len() == 4 && cidr_length <= 32,
            MechanismView::Ip6 { addr, cidr_length } => addr.len() == 8 && cidr_length <= 128,
            MechanismView::Exists { macro_string } => macro_string.wf(),
        }
    }
}

impl ModifierView {
    pub open spec fn wf(self) -> bool {
        match self {
            ModifierView::Redirect(m) => m.wf(),
            ModifierView::Explanation(m) => m.wf(),
        }
    }
}

impl SpfView {
    /// What holds of every parsed record: it has a directive or a modifier,
    /// and each of them is well-formed.
    pub open spec fn wf(self) -> bool {
        &&& self.directives.len() + self.modifiers.len() > 0
        &&& forall|k: int|
            0 <= k < self.directives.len() ==> (#[trigger] self.directives[k]).mechanism.wf()
        &&& forall|k: int| 0 <= k < self.modifiers.len() ==> (#[trigger] self.modifiers[k]).wf()
    }
}

impl Macro {
    pub open spec fn view(&self) -> MacroView
        decreases self,
    {
        match self {
            Macro::Empty => MacroView::Empty,
            Macro::Literal(bytes) => MacroView::Literal(bytes@),
            Macro::Variable { letter, num_parts, reverse, escape, delimiters } => {
                MacroView::Variable {
                    letter: *letter,
                    num_parts: *num_parts,
                    reverse: *reverse,
                    escape: *escape,
                    delimiters: *delimiters,
                }
            },
            Macro::List(items) => MacroView::List(
                Seq::new(
                    items.len() as nat,
                    |i: int|
                        if 0 <= i < items.len() {
                            items[i].view()
                        } else {
                            MacroView::Empty
                        },
                ),
            ),
        }
    }
}

impl Mechanism {
    pub open spec fn view(&self) -> MechanismView {
        match self {
            Mechanism::All => MechanismView::All,
            Mechanism::Include { macro_string } => MechanismView::Include {
                macro_string: macro_string@,
            },
            Mechanism::A { macro_string, ip4_cidr_length, ip6_cidr_length } => MechanismView::A {
                macro_string: macro_string@,
                ip4_cidr_length: *ip4_cidr_length,
                ip6_cidr_length: *ip6_cidr_length,
            },
            Mechanism::Mx { macro_string, ip4_cidr_length, ip6_cidr_length } => MechanismView::Mx {
                macro_string: macro_string@,
                ip4_cidr_length: *ip4_cidr_length,
                ip6_cidr_length: *ip6_cidr_length,
            },
            Mechanism::Ptr { macro_string } => MechanismView::Ptr { macro_string: macro_string@ },
            Mechanism::Ip4 { addr, cidr_length } => MechanismView::Ip4 {
                addr: addr@,
                cidr_length: *cidr_length,
            },
            Mechanism::Ip6 { addr, cidr_length } => MechanismView::Ip6 {
                addr: addr@,
                cidr_length: *cidr_length,
            },
            Mechanism::Exists { macro_string } => MechanismView::Exists {
                macro_string: macro_string@,
            },
        }
    }
}

impl Directive {
    pub open spec fn view(&self) -> DirectiveView {
        DirectiveView { qualifier: self.qualifier, mechanism: self.mechanism@ }
    }

    pub fn new(qualifier: Qualifier, mechanism: Mechanism) -> (d: Self)
        ensures
            d.qualifier == qualifier,
            d.mechanism == mechanism,
    {
        Directive { qualifier, mechanism }
    }
}

impl Modifier {
    pub open spec fn view(&self) -> ModifierView {
        match self {
            Modifier::Redirect(m) => ModifierView::Redirect(m@),
            Modifier::Explanation(m) => ModifierView::Explanation(m@),
        }
    }
}

/// The values of a sequence of directives.
pub open spec fn directive_views(items: Seq<Directive>) -> Seq<DirectiveView> {
    Seq::new(items.len(), |i: int| items[i]@)
}

/// The values of a sequence of modifiers.
pub open spec fn modifier_views(items: Seq<Modifier>) -> Seq<ModifierView> {
    Seq::new(items.len(), |i: int| items[i]@)
}

impl SPF {
    pub open spec fn view(&self) -> SpfView {
        SpfView {
            version: self.version,
            directives: directive_views(self.directives@),
            modifiers: modifier_views(self.modifiers@),
        }
    }
}

} // verus!
