//! Sequence records: identifier extraction and re-encoding to bytes.

use vstd::prelude::*;

verus! {

/// Position of the first space byte in a header, or the header's length when
/// no space occurs.
pub open spec fn first_space(head: Seq<u8>) -> int
    decreases head.len(),
{
    if head.len() == 0 {
        0
    } else if head[0] == 32u8 {
        0
    } else {
        1 + first_space(head.subrange(1, head.len() as int))
    }
}

/// The identifier of a record: the header bytes before the first space byte;
/// the whole header when no space occurs. Text after the space is a free-form
/// comment, ignored for matching but kept for re-encoding.
pub open spec fn ident_of(head: Seq<u8>) -> Seq<u8> {
    head.take(first_space(head))
}

/// `first_space` is the least position holding a space, or the length.
pub proof fn lemma_first_space(head: Seq<u8>)
    ensures
        0 <= first_space(head) <= head.len(),
        forall|k: int| 0 <= k < first_space(head) ==> head[k] != 32u8,
        first_space(head) < head.len() ==> head[first_space(head)] == 32u8,
    decreases head.len(),
{
    if head.len() > 0 && head[0] != 32u8 {
        let tail = head.subrange(1, head.len() as int);
        lemma_first_space(tail);
        assert forall|k: int| 0 <= k < first_space(head) implies head[k] != 32u8 by {
            if k > 0 {
                assert(tail[k - 1] == head[k]);
            }
        }
        if first_space(head) < head.len() {
            assert(tail[first_space(tail)] == head[first_space(head)]);
        }
    }
}

/// Extracts the identifier from a header line.
pub fn extract_ident(head: &Vec<u8>) -> (r: Vec<u8>)
    ensures
        r@ == ident_of(head@),
{
    proof {
        lemma_first_space(head@);
    }
    let mut i: usize = 0;
    while i < head.len() && head[i] != 32u8
        invariant
            i <= head@.len(),
            forall|k: int| 0 <= k < i ==> head@[k] != 32u8,
        decreases head@.len() - i,
    {
        i = i + 1;
    }
    proof {
        lemma_first_space(head@);
        assert(i as int == first_space(head@));
    }
    let mut r: Vec<u8> = Vec::new();
    let mut k: usize = 0;
    while k < i
        invariant
            k <= i <= head@.len(),
            r@ =~= head@.take(k as int),
        decreases i - k,
    {
        let b = head[k];
        r.push(b);
        k = k + 1;
    }
    r
}

/// The four-line FASTQ framing of a record: `@`, header, newline, bases,
/// `\n+\n`, quality bytes, newline.
pub open spec fn fastq_bytes(head: Seq<u8>, bases: Seq<u8>, qual: Seq<u8>) -> Seq<u8> {
    seq![64u8] + head + seq![10u8] + bases + seq![10u8, 43u8, 10u8] + qual + seq![10u8]
}

/// The FASTA framing of a record: `>`, header, newline, bases, newline.
pub open spec fn fasta_bytes(head: Seq<u8>, bases: Seq<u8>) -> Seq<u8> {
    seq![62u8] + head + seq![10u8] + bases + seq![10u8]
}

/// One sequence record, owned for the duration of a single router iteration.
/// A FASTQ record carries quality bytes; a FASTA record does not.
pub enum SeqRecord {
    Fastq { head: Vec<u8>, bases: Vec<u8>, qual: Vec<u8> },
    Fasta { head: Vec<u8>, bases: Vec<u8> },
}

/// Relies on `seq_io::fastq::write_to`, which writes `@`, the header, a
/// newline, the bases, a `\n+\n` separator, the quality bytes, and a final
/// newline; writing into a `Vec<u8>` cannot fail.
#[verifier::external_body]
fn fastq_write_to(out: &mut Vec<u8>, head: &Vec<u8>, bases: &Vec<u8>, qual: &Vec<u8>)
    ensures
        final(out)@ == old(out)@ + fastq_bytes(head@, bases@, qual@),
{
    seq_io::fastq::write_to(&mut *out, head.as_slice(), bases.as_slice(), qual.as_slice())
        .expect("writing to a byte buffer cannot fail");
}

/// Relies on `seq_io::fasta::write_to`, which writes `>`, the header, a
/// newline, the bases on a single line, and a final newline; writing into a
/// `Vec<u8>` cannot fail.
#[verifier::external_body]
fn fasta_write_to(out: &mut Vec<u8>, head: &Vec<u8>, bases: &Vec<u8>)
    ensures
        final(out)@ == old(out)@ + fasta_bytes(head@, bases@),
{
    seq_io::fasta::write_to(&mut *out, head.as_slice(), bases.as_slice())
        .expect("writing to a byte buffer cannot fail");
}

impl SeqRecord {
    /// The header line, without its `@` or `>` marker.
    pub open spec fn head_view(self) -> Seq<u8> {
        match self {
            SeqRecord::Fastq { head, .. } => head@,
            SeqRecord::Fasta { head, .. } => head@,
        }
    }

    /// The identifier this record is matched by.
    pub open spec fn ident_view(self) -> Seq<u8> {
        ident_of(self.head_view())
    }

    /// The bytes this record re-encodes to, in its native format.
    pub open spec fn encoding(self) -> Seq<u8> {
        match self {
            SeqRecord::Fastq { head, bases, qual } => fastq_bytes(head@, bases@, qual@),
            SeqRecord::Fasta { head, bases } => fasta_bytes(head@, bases@),
        }
    }

    /// Extracts the identifier from the record's header.
    pub fn ident(&self) -> (r: Vec<u8>)
        ensures
            r@ == self.ident_view(),
    {
        match self {
            SeqRecord::Fastq { head, .. } => extract_ident(head),
            SeqRecord::Fasta { head, .. } => extract_ident(head),
        }
    }

    /// Re-encodes the record and appends the bytes to `out`.
    pub fn append_encoded(&self, out: &mut Vec<u8>)
        ensures
            final(out)@ == old(out)@ + self.encoding(),
    {
        match self {
            SeqRecord::Fastq { head, bases, qual } => fastq_write_to(out, head, bases, qual),
            SeqRecord::Fasta { head, bases } => fasta_write_to(out, head, bases),
        }
    }

    /// The record's native-format encoding as a fresh buffer.
    pub fn encoded(&self) -> (r: Vec<u8>)
        ensures
            r@ == self.encoding(),
    {
        let mut out: Vec<u8> = Vec::new();
        self.append_encoded(&mut out);
        out
    }
}

} // verus!
