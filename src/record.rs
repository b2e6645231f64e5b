use bio::io::fastq;
use vstd::prelude::*;
use vstd::utf8::encode_utf8;

verus! {

/// A byte that a sequence may hold: an ASCII letter, `-`, `.` or `*`.
pub open spec fn is_symbol(b: u8) -> bool {
    (65 <= b <= 90) || (97 <= b <= 122) || b == 45 || b == 46 || b == 42
}

/// ASCII white space: tab, line feed, vertical tab, form feed, carriage
/// return and space.
pub open spec fn is_blank(b: u8) -> bool {
    (9 <= b <= 13) || b == 32
}

/// The length of `s` once trailing white space is cut off.
pub open spec fn trimmed_len(s: Seq<u8>) -> nat
    decreases s.len(),
{
    if s.len() > 0 && is_blank(s.last()) {
        trimmed_len(s.drop_last())
    } else {
        s.len()
    }
}

/// One sequencing read: an identifier, an optional description, the
/// sequence and one quality symbol per sequence symbol.
pub struct Record {
    pub id: String,
    pub desc: Option<String>,
    pub seq: String,
    pub qual: String,
}

impl Record {
    /// The bytes of the sequence.
    pub open spec fn symbols(&self) -> Seq<u8> {
        encode_utf8(self.seq@)
    }

    /// The bytes of the quality line.
    pub open spec fn qualities(&self) -> Seq<u8> {
        encode_utf8(self.qual@)
    }

    /// A record worth counting: a non-empty identifier, a sequence of
    /// sequence symbols, ASCII qualities, and as many qualities (trailing
    /// white space aside) as symbols.
    pub open spec fn well_formed(&self) -> bool {
        &&& self.id@.len() > 0
        &&& forall|i: int| 0 <= i < self.symbols().len() ==> is_symbol(#[trigger] self.symbols()[i])
        &&& forall|i: int| 0 <= i < self.qualities().len() ==> #[trigger] self.qualities()[i] < 128
        &&& self.symbols().len() == trimmed_len(self.qualities())
    }

    /// Relies on `bio::io::fastq::Record::check`, which accepts a record with
    /// a non-empty id, a sequence of ASCII letters, `-`, `.` and `*`, ASCII
    /// qualities, and sequence and qualities of one length once both are
    /// trimmed at the end (`with_attrs` only copies the fields in).
    #[verifier::external_body]
    pub(crate) fn check(&self) -> (r: bool)
        ensures
            r == self.well_formed(),
    {
        fastq::Record::with_attrs(
            self.id.as_str(),
            self.desc.as_deref(),
            self.seq.as_bytes(),
            self.qual.as_bytes(),
        ).check().is_ok()
    }
}

} // verus!
