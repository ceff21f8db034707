//! The certificate chain that a publisher presents: a sequence number and whether
//! it is the primary or a secondary chain of the name.
use vstd::prelude::*;

use crate::foreign::certificate_sequence;
use crate::text::{decimal, push_decimal};

verus! {

/// The number of a certificate chain. It fits in 31 bits.
#[derive(Debug, Clone, Copy, PartialEq, Eq, PartialOrd, Ord, Hash, Structural)]
pub struct CertificateSequence {
    value: u32,
}

impl CertificateSequence {
    /// The greatest sequence number.
    pub const MAX: u32 = 0x7fff_ffff;

    pub closed spec fn number(self) -> u32 {
        self.value
    }

    /// The sequence of a chain that does not name one.
    pub open spec fn zero() -> Self {
        Self::numbered(0)
    }

    /// The sequence with a number.
    pub closed spec fn numbered(value: u32) -> Self {
        CertificateSequence { value }
    }

    pub fn get(self) -> (r: u32)
        ensures
            r == self.number(),
    {
        self.value
    }

    /// The sequence with this number, where there is one.
    pub fn new(value: u64) -> (r: Option<Self>)
        ensures
            r is Some <==> value <= 0x7fff_ffff,
            r is Some ==> (r->0).number() == value,
    {
        match certificate_sequence(value) {
            Some(value) => Some(CertificateSequence { value }),
            None => None,
        }
    }

    pub fn from_small(value: u8) -> (r: Self)
        ensures
            r.number() == value,
            value == 0 ==> r == Self::zero(),
    {
        CertificateSequence { value: value as u32 }
    }
}

/// Two sequences with the same number are the same.
pub proof fn lemma_sequence_by_number(a: CertificateSequence, b: CertificateSequence)
    ensures
        a.number() == b.number() <==> a == b,
        CertificateSequence::numbered(a.number()) == a,
{
}

/// Whether a chain is the primary chain of its name or a secondary one.
#[derive(Debug, Clone, Copy, PartialEq, Eq, Hash, Structural)]
pub enum CertificateChainKind {
    Primary,
    Secondary,
}

impl CertificateChainKind {
    /// The flag that stands for the kind in a certificate.
    pub fn kind_flag(self) -> (r: &'static str)
        ensures
            self is Primary ==> r@ == "0"@,
            self is Secondary ==> r@ == "1"@,
    {
        match self {
            CertificateChainKind::Primary => "0",
            CertificateChainKind::Secondary => "1",
        }
    }
}

/// What tells the certificate chains of one name apart.
#[derive(Debug, Clone, Copy, PartialEq, Eq, Hash, Structural)]
pub struct CertificateChainKey {
    pub sequence: CertificateSequence,
    pub kind: CertificateChainKind,
}

impl CertificateChainKey {
    /// The name of the chain for its users.
    pub fn label(&self) -> (r: String)
        ensures
            r@ == (match self.kind {
                CertificateChainKind::Primary => "primary:"@,
                CertificateChainKind::Secondary => "secondary:"@,
            }) + decimal(self.sequence.number() as nat),
    {
        let mut out = match self.kind {
            CertificateChainKind::Primary => "primary:".to_owned(),
            CertificateChainKind::Secondary => "secondary:".to_owned(),
        };
        push_decimal(&mut out, self.sequence.get() as u64);
        out
    }

    pub fn new(sequence: CertificateSequence, kind: CertificateChainKind) -> (r: Self)
        ensures
            r.sequence == sequence,
            r.kind == kind,
    {
        CertificateChainKey { sequence, kind }
    }
}

pub fn primary_chain_key(sequence: CertificateSequence) -> (r: CertificateChainKey)
    ensures
        r == (CertificateChainKey { sequence, kind: CertificateChainKind::Primary }),
{
    CertificateChainKey::new(sequence, CertificateChainKind::Primary)
}

pub fn secondary_chain_key(sequence: CertificateSequence) -> (r: CertificateChainKey)
    ensures
        r == (CertificateChainKey { sequence, kind: CertificateChainKind::Secondary }),
{
    CertificateChainKey::new(sequence, CertificateChainKind::Secondary)
}

pub fn is_primary_chain_key(chain_key: &CertificateChainKey) -> (r: bool)
    ensures
        r == (chain_key.kind is Primary),
{
    match chain_key.kind {
        CertificateChainKind::Primary => true,
        CertificateChainKind::Secondary => false,
    }
}

/// A sequence has the number that it is made of.
pub proof fn lemma_numbered(value: u32)
    ensures
        CertificateSequence::numbered(value).number() == value,
{
}

} // verus!
