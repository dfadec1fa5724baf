//! Payment records and their byte encoding in a client's storage.
//!
//! A record is stored as: status byte, direction byte, creation time (8 bytes, little
//! endian), payment hash (32 bytes), then the invoice text in UTF-8.

use vstd::prelude::*;
use vstd::bytes::*;
use vstd::utf8::*;
use vstd::string::StringSliceAdditionalSpecFns;

use crate::text::string_from_utf8;

verus! {

/// Where a payment stands.
#[derive(Clone, Copy, Debug, PartialEq, Eq, Structural)]
pub enum PaymentStatus {
    Paid,
    Pending,
    Failed,
    Expired,
}

/// Whether a payment leaves or reaches the client.
#[derive(Clone, Copy, Debug, PartialEq, Eq, Structural)]
pub enum PaymentDirection {
    Outgoing,
    Incoming,
}

/// A payment that a client made or expects.
pub struct Payment {
    /// The canonical text of the invoice paid or issued.
    pub invoice: String,
    /// The invoice's payment hash, 32 bytes; payments are stored under it.
    pub payment_hash: Vec<u8>,
    pub status: PaymentStatus,
    /// Creation time, seconds since the Unix epoch.
    pub created_at: u64,
    pub direction: PaymentDirection,
}

/// A payment as a plain value.
pub struct PaymentView {
    pub invoice: Seq<char>,
    pub payment_hash: Seq<u8>,
    pub status: PaymentStatus,
    pub created_at: u64,
    pub direction: PaymentDirection,
}

impl View for Payment {
    type V = PaymentView;

    open spec fn view(&self) -> PaymentView {
        PaymentView {
            invoice: self.invoice@,
            payment_hash: self.payment_hash@,
            status: self.status,
            created_at: self.created_at,
            direction: self.direction,
        }
    }
}

impl Payment {
    /// A payment of `invoice` (canonical text and payment hash) created at `created_at`.
    pub fn new(
        invoice: String,
        payment_hash: Vec<u8>,
        status: PaymentStatus,
        direction: PaymentDirection,
        created_at: u64,
    ) -> (p: Payment)
        ensures
            p@ == (PaymentView {
                invoice: invoice@,
                payment_hash: payment_hash@,
                status,
                created_at,
                direction,
            }),
    {
        Payment { invoice, payment_hash, status, created_at, direction }
    }

    /// The payment has been paid.
    pub fn paid(&self) -> (r: bool)
        ensures
            r == (self.status == PaymentStatus::Paid),
    {
        match self.status {
            PaymentStatus::Paid => true,
            _ => false,
        }
    }

    /// The payment has expired unpaid.
    pub fn expired(&self) -> (r: bool)
        ensures
            r == (self.status == PaymentStatus::Expired),
    {
        match self.status {
            PaymentStatus::Expired => true,
            _ => false,
        }
    }

    /// The payment leaves the client.
    pub fn outgoing(&self) -> (r: bool)
        ensures
            r == (self.direction == PaymentDirection::Outgoing),
    {
        match self.direction {
            PaymentDirection::Outgoing => true,
            PaymentDirection::Incoming => false,
        }
    }

    /// The payment reaches the client.
    pub fn incoming(&self) -> (r: bool)
        ensures
            r == (self.direction == PaymentDirection::Incoming),
    {
        match self.direction {
            PaymentDirection::Outgoing => false,
            PaymentDirection::Incoming => true,
        }
    }
}

/// The byte that stands for a status.
pub open spec fn status_byte(s: PaymentStatus) -> u8 {
    match s {
        PaymentStatus::Paid => 0,
        PaymentStatus::Pending => 1,
        PaymentStatus::Failed => 2,
        PaymentStatus::Expired => 3,
    }
}

/// The status a byte stands for.
pub open spec fn byte_status(b: u8) -> Option<PaymentStatus> {
    if b == 0 {
        Some(PaymentStatus::Paid)
    } else if b == 1 {
        Some(PaymentStatus::Pending)
    } else if b == 2 {
        Some(PaymentStatus::Failed)
    } else if b == 3 {
        Some(PaymentStatus::Expired)
    } else {
        None
    }
}

/// The byte that stands for a direction.
pub open spec fn direction_byte(d: PaymentDirection) -> u8 {
    match d {
        PaymentDirection::Outgoing => 0,
        PaymentDirection::Incoming => 1,
    }
}

/// The direction a byte stands for.
pub open spec fn byte_direction(b: u8) -> Option<PaymentDirection> {
    if b == 0 {
        Some(PaymentDirection::Outgoing)
    } else if b == 1 {
        Some(PaymentDirection::Incoming)
    } else {
        None
    }
}

/// The length of the fixed part of a record: two flag bytes, the time and the hash.
pub open spec fn header_len() -> int {
    42
}

/// The stored form of a payment.
pub open spec fn encode_payment(p: PaymentView) -> Seq<u8> {
    seq![status_byte(p.status), direction_byte(p.direction)] + spec_u64_to_le_bytes(
        p.created_at,
    ) + p.payment_hash + encode_utf8(p.invoice)
}

/// The payment that stored bytes describe, or `None` where they describe none.
pub open spec fn decode_payment(b: Seq<u8>) -> Option<PaymentView> {
    if b.len() < header_len() {
        None
    } else {
        match (byte_status(b[0]), byte_direction(b[1])) {
            (Some(status), Some(direction)) => {
                let text = b.subrange(header_len(), b.len() as int);
                if valid_utf8(text) {
                    Some(
                        PaymentView {
                            invoice: decode_utf8(text),
                            payment_hash: b.subrange(10, header_len()),
                            status,
                            created_at: spec_u64_from_le_bytes(b.subrange(2, 10)),
                            direction,
                        },
                    )
                } else {
                    None
                }
            },
            _ => None,
        }
    }
}

/// A copy of `b[from..to]`.
pub fn copy_range(b: &[u8], from: usize, to: usize) -> (r: Vec<u8>)
    requires
        from <= to <= b@.len(),
    ensures
        r@ == b@.subrange(from as int, to as int),
{
    let mut r: Vec<u8> = Vec::new();
    let mut i: usize = from;
    while i < to
        invariant
            from <= i <= to <= b@.len(),
            r@ == b@.subrange(from as int, i as int),
        decreases to - i,
    {
        r.push(b[i]);
        i = i + 1;
        proof {
            assert(r@ =~= b@.subrange(from as int, i as int));
        }
    }
    r
}

/// Appends the bytes of `src`.
pub fn append_bytes(out: &mut Vec<u8>, src: &[u8])
    ensures
        final(out)@ == old(out)@ + src@,
{
    let ghost start = out@;
    let mut i: usize = 0;
    while i < src.len()
        invariant
            i <= src@.len(),
            out@ == start + src@.subrange(0, i as int),
        decreases src@.len() - i,
    {
        out.push(src[i]);
        i = i + 1;
        proof {
            assert(out@ =~= start + src@.subrange(0, i as int));
        }
    }
    proof {
        assert(src@.subrange(0, src@.len() as int) =~= src@);
    }
}

/// Encodes a payment for storage.
pub fn encode_payment_record(p: &Payment) -> (r: Vec<u8>)
    ensures
        r@ == encode_payment(p@),
{
    let mut out: Vec<u8> = Vec::new();
    let s: u8 = match p.status {
        PaymentStatus::Paid => 0,
        PaymentStatus::Pending => 1,
        PaymentStatus::Failed => 2,
        PaymentStatus::Expired => 3,
    };
    let d: u8 = match p.direction {
        PaymentDirection::Outgoing => 0,
        PaymentDirection::Incoming => 1,
    };
    out.push(s);
    out.push(d);
    let t = u64_to_le_bytes(p.created_at);
    append_bytes(&mut out, t.as_slice());
    append_bytes(&mut out, p.payment_hash.as_slice());
    append_bytes(&mut out, p.invoice.as_str().as_bytes());
    proof {
        assert(out@ =~= encode_payment(p@));
    }
    out
}

/// Decodes a stored payment; `None` where the bytes describe none.
pub fn decode_payment_record(b: &[u8]) -> (r: Option<Payment>)
    ensures
        match r {
            Some(p) => decode_payment(b@) == Some(p@),
            None => decode_payment(b@) is None,
        },
{
    if b.len() < 42 {
        return None;
    }
    let status = if b[0] == 0 {
        PaymentStatus::Paid
    } else if b[0] == 1 {
        PaymentStatus::Pending
    } else if b[0] == 2 {
        PaymentStatus::Failed
    } else if b[0] == 3 {
        PaymentStatus::Expired
    } else {
        return None;
    };
    let direction = if b[1] == 0 {
        PaymentDirection::Outgoing
    } else if b[1] == 1 {
        PaymentDirection::Incoming
    } else {
        return None;
    };
    let time_bytes = copy_range(b, 2, 10);
    let created_at = u64_from_le_bytes(time_bytes.as_slice());
    let payment_hash = copy_range(b, 10, 42);
    let text = copy_range(b, 42, b.len());
    match string_from_utf8(text) {
        Some(invoice) => Some(Payment { invoice, payment_hash, status, created_at, direction }),
        None => None,
    }
}

/// A stored payment decodes to the payment that was stored.
pub proof fn law_payment_roundtrip(p: PaymentView)
    requires
        p.payment_hash.len() == 32,
    ensures
        decode_payment(encode_payment(p)) == Some(p),
{
    let b = encode_payment(p);
    lemma_auto_spec_u64_to_from_le_bytes();
    encode_utf8_valid_utf8(p.invoice);
    encode_utf8_decode_utf8(p.invoice);
    let t = spec_u64_to_le_bytes(p.created_at);
    assert(b.subrange(2, 10) =~= t);
    assert(b.subrange(10, 42) =~= p.payment_hash);
    assert(b.subrange(42, b.len() as int) =~= encode_utf8(p.invoice));
    assert(b[0] == status_byte(p.status));
    assert(b[1] == direction_byte(p.direction));
}

/// Bytes that decode to a payment are the stored form of that payment.
pub proof fn law_record_canonical(b: Seq<u8>)
    requires
        decode_payment(b) is Some,
    ensures
        encode_payment(decode_payment(b)->0) == b,
{
    let p = decode_payment(b)->0;
    lemma_auto_spec_u64_to_from_le_bytes();
    let text = b.subrange(42, b.len() as int);
    decode_utf8_encode_utf8(text);
    let t = b.subrange(2, 10);
    assert(spec_u64_to_le_bytes(spec_u64_from_le_bytes(t)) == t);
    assert(encode_payment(p) =~= b);
}

} // verus!
