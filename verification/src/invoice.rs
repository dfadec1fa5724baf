//! BOLT11 lightning invoices: decoding, and the amounts and fees derived from them.

use vstd::prelude::*;
use vstd::string::StringSliceAdditionalSpecFns;

use crate::error::BridgeError;
use crate::hex::{hex_lower, hex_lower_bytes};
use crate::text::{ascii_chars_of, ascii_string};

verus! {

#[verifier::external_type_specification]
#[verifier::external_body]
pub struct ExInvoice(lightning_invoice::Invoice);

/// The network an invoice is denominated on.
#[derive(Clone, Copy, Debug, PartialEq, Eq, Structural)]
pub enum Currency {
    Bitcoin,
    BitcoinTestnet,
    Regtest,
    Simnet,
    Signet,
}

/// `s` parses as a BOLT11 invoice that satisfies the standard's semantic rules.
pub uninterp spec fn bolt11_valid(s: Seq<char>) -> bool;

/// The canonical (lower-case bech32) text of the invoice `s`.
pub uninterp spec fn bolt11_canonical(s: Seq<char>) -> Seq<char>;

/// The payment hash of the invoice `s`.
pub uninterp spec fn bolt11_payment_hash(s: Seq<char>) -> Seq<u8>;

/// The amount of the invoice `s` in millisatoshis, where it names one.
pub uninterp spec fn bolt11_amount_msat(s: Seq<char>) -> Option<u64>;

/// The description of the invoice `s`, or `None` where it carries only a hash of one.
pub uninterp spec fn bolt11_description(s: Seq<char>) -> Option<Seq<char>>;

/// The currency of the invoice `s`.
pub uninterp spec fn bolt11_currency(s: Seq<char>) -> Currency;

/// The position of the last `1` byte of `b` (where bech32 splits the human-readable
/// part from the data), or -1 where there is none.
pub open spec fn last_separator(b: Seq<u8>) -> int
    decreases b.len(),
{
    if b.len() == 0 {
        -1
    } else if b.last() == 49u8 {
        b.len() - 1
    } else {
        last_separator(b.drop_last())
    }
}

/// `c` is an ASCII decimal digit.
pub open spec fn is_digit(c: u8) -> bool {
    48 <= c <= 57
}

/// The number of decimal digits that `h` ends with.
pub open spec fn trailing_digits(h: Seq<u8>) -> nat
    decreases h.len(),
{
    if h.len() > 0 && is_digit(h.last()) {
        1 + trailing_digits(h.drop_last())
    } else {
        0
    }
}

/// The number that the decimal digits `d` spell.
pub open spec fn digits_value(d: Seq<u8>) -> nat
    decreases d.len(),
{
    if d.len() == 0 {
        0
    } else {
        digits_value(d.drop_last()) * 10 + (d.last() - 48) as nat
    }
}

/// The invoice text `b` (in UTF-8) names an amount without a multiplier (its
/// human-readable part ends in digits) too large to be written in pico-bitcoin in a
/// `u64`: more than 18446744 bitcoin. lightning-invoice multiplies such an amount by
/// 10^12 unchecked while it parses the invoice.
pub open spec fn unscaled_amount_overflows(b: Seq<u8>) -> bool {
    let i = last_separator(b);
    let h = b.subrange(0, i);
    let n = trailing_digits(h);
    &&& i >= 0
    &&& n > 0
    &&& digits_value(h.subrange(h.len() - n, h.len() as int)) > 18446744
}

/// The invoice text `s` is accepted: its amount can be represented, and it is a valid
/// BOLT11 invoice.
pub open spec fn bolt11_accepted(s: Seq<char>) -> bool {
    !unscaled_amount_overflows(vstd::utf8::encode_utf8(s)) && bolt11_valid(s)
}

/// An invoice whose amount is written with a multiplier (its human-readable part ends
/// in a letter such as `m`, `u`, `n` or `p`), or that names no amount, is never refused
/// for its amount: it is accepted exactly when it is a valid invoice.
pub proof fn law_multiplied_amount_accepted_iff_valid(s: Seq<char>)
    requires
        last_separator(vstd::utf8::encode_utf8(s)) >= 1 ==> !is_digit(
            vstd::utf8::encode_utf8(s)[last_separator(vstd::utf8::encode_utf8(s)) - 1],
        ),
    ensures
        !unscaled_amount_overflows(vstd::utf8::encode_utf8(s)),
        bolt11_accepted(s) == bolt11_valid(s),
{
    let b = vstd::utf8::encode_utf8(s);
    lemma_separator_digit_ends_amount(b);
}

/// An amount written with digits only is refused only where it is above 18446744
/// bitcoin, that is where it does not fit in a `u64` once written in pico-bitcoin.
pub proof fn law_unscaled_refusal_needs_large_amount(b: Seq<u8>)
    requires
        unscaled_amount_overflows(b),
    ensures
        last_separator(b) >= 1,
        is_digit(b[last_separator(b) - 1]),
        digits_value(
            b.subrange(0, last_separator(b)).subrange(
                last_separator(b) - trailing_digits(b.subrange(0, last_separator(b))),
                last_separator(b),
            ),
        ) * 1000000000000 > 18446744073709551615,
{
    let i = last_separator(b);
    lemma_last_separator_bounds(b);
    let h = b.subrange(0, i);
    let n = trailing_digits(h);
    lemma_trailing_digits_bound(h);
    assert(h.len() > 0 && is_digit(h.last())) by {
        reveal_with_fuel(trailing_digits, 1);
    }
    assert(h.last() == b[i - 1]);
    let v = digits_value(h.subrange(h.len() - n, h.len() as int));
    assert(v * 1000000000000 > 18446744073709551615) by (nonlinear_arith)
        requires
            v > 18446744,
    ;
}

/// An amount written with digits only that does not fit in a `u64` once written in
/// pico-bitcoin is refused.
pub proof fn law_large_unscaled_amount_refused(b: Seq<u8>)
    requires
        last_separator(b) >= 1,
        trailing_digits(b.subrange(0, last_separator(b))) > 0,
        digits_value(
            b.subrange(0, last_separator(b)).subrange(
                last_separator(b) - trailing_digits(b.subrange(0, last_separator(b))),
                last_separator(b),
            ),
        ) * 1000000000000 > 18446744073709551615,
    ensures
        unscaled_amount_overflows(b),
{
    let i = last_separator(b);
    lemma_last_separator_bounds(b);
    let h = b.subrange(0, i);
    let n = trailing_digits(h);
    let v = digits_value(h.subrange(h.len() - n, h.len() as int));
    assert(v > 18446744) by (nonlinear_arith)
        requires
            v * 1000000000000 > 18446744073709551615,
    ;
}

/// The separator, where there is one, is a position of `b`.
proof fn lemma_last_separator_bounds(b: Seq<u8>)
    ensures
        -1 <= last_separator(b) < b.len(),
        last_separator(b) >= 0 ==> b[last_separator(b)] == 49u8,
    decreases b.len(),
{
    if b.len() > 0 && b.last() != 49u8 {
        lemma_last_separator_bounds(b.drop_last());
    }
}

/// A text ends with no more digits than it has bytes.
proof fn lemma_trailing_digits_bound(h: Seq<u8>)
    ensures
        trailing_digits(h) <= h.len(),
    decreases h.len(),
{
    if h.len() > 0 && is_digit(h.last()) {
        lemma_trailing_digits_bound(h.drop_last());
    }
}

/// Where the byte before the separator is not a digit, no amount without multiplier
/// is written.
proof fn lemma_separator_digit_ends_amount(b: Seq<u8>)
    requires
        last_separator(b) >= 1 ==> !is_digit(b[last_separator(b) - 1]),
    ensures
        !unscaled_amount_overflows(b),
{
    let i = last_separator(b);
    lemma_last_separator_bounds(b);
    if i >= 0 {
        let h = b.subrange(0, i);
        if h.len() > 0 {
            assert(h.last() == b[i - 1]);
        }
        assert(trailing_digits(h) == 0);
    }
}

/// A prefix of a digit string spells at most the number the whole string spells.
proof fn lemma_digits_value_prefix(d: Seq<u8>, m: int)
    requires
        0 <= m <= d.len(),
        forall|k: int| 0 <= k < d.len() ==> is_digit(#[trigger] d[k]),
    ensures
        digits_value(d.subrange(0, m)) <= digits_value(d),
    decreases d.len(),
{
    if m < d.len() {
        let p = d.drop_last();
        assert(p.subrange(0, m) =~= d.subrange(0, m));
        lemma_digits_value_prefix(p, m);
        assert(digits_value(p) <= digits_value(p) * 10);
    } else {
        assert(d.subrange(0, m) =~= d);
    }
}

/// The last separator of `b` lies within its first `j` bytes when none follows them.
proof fn lemma_last_separator_prefix(b: Seq<u8>, j: int)
    requires
        0 <= j <= b.len(),
        forall|k: int| j <= k < b.len() ==> #[trigger] b[k] != 49u8,
    ensures
        last_separator(b) == last_separator(b.subrange(0, j)),
    decreases b.len() - j,
{
    if j < b.len() {
        lemma_last_separator_prefix(b, j + 1);
        let p = b.subrange(0, j + 1);
        assert(p.drop_last() =~= b.subrange(0, j));
        assert(p.last() == b[j]);
    } else {
        assert(b.subrange(0, j) =~= b);
    }
}

/// Whether the invoice text `s` names an amount without a multiplier that does not fit
/// in pico-bitcoin (see `unscaled_amount_overflows`).
pub fn amount_overflows(s: &str) -> (r: bool)
    ensures
        r == unscaled_amount_overflows(s.spec_bytes()),
{
    let b = s.as_bytes();
    let ghost bv = b@;
    // The separator: the last `1`.
    let mut j: usize = b.len();
    while j > 0 && b[j - 1] != 49u8
        invariant
            j <= bv.len(),
            bv == b@,
            forall|k: int| j <= k < bv.len() ==> #[trigger] bv[k] != 49u8,
        decreases j,
    {
        j = j - 1;
    }
    proof {
        lemma_last_separator_prefix(bv, j as int);
        if j > 0 {
            let p = bv.subrange(0, j as int);
            assert(p.last() == bv[j - 1]);
        } else {
            assert(bv.subrange(0, 0).len() == 0);
        }
    }
    if j == 0 {
        return false;
    }
    let i: usize = j - 1;
    let ghost h = bv.subrange(0, i as int);
    // The digits the human-readable part ends with: positions k..i.
    let mut k: usize = i;
    proof {
        assert(h.subrange(0, i as int) =~= h);
    }
    while k > 0 && 48u8 <= b[k - 1] && b[k - 1] <= 57u8
        invariant
            k <= i,
            i < bv.len(),
            bv == b@,
            h == bv.subrange(0, i as int),
            trailing_digits(h) == (i - k) + trailing_digits(h.subrange(0, k as int)),
            forall|m: int| k <= m < i ==> is_digit(#[trigger] bv[m]),
        decreases k,
    {
        proof {
            let p = h.subrange(0, k as int);
            assert(p.drop_last() =~= h.subrange(0, k - 1));
            assert(p.last() == bv[k - 1]);
        }
        k = k - 1;
    }
    proof {
        let p = h.subrange(0, k as int);
        if k > 0 {
            assert(p.last() == bv[k - 1]);
        }
        assert(trailing_digits(p) == 0);
    }
    if k == i {
        return false;
    }
    let ghost d = bv.subrange(k as int, i as int);
    proof {
        assert(h.subrange(h.len() - (i - k), h.len() as int) =~= d);
    }
    let mut v: u64 = 0;
    let mut m: usize = k;
    while m < i
        invariant
            k <= m <= i,
            i < bv.len(),
            bv == b@,
            d == bv.subrange(k as int, i as int),
            bv == s.spec_bytes(),
            last_separator(bv) == i as int,
            h == bv.subrange(0, i as int),
            trailing_digits(h) == i - k,
            h.subrange(h.len() - (i - k), h.len() as int) == d,
            forall|q: int| k <= q < i ==> is_digit(#[trigger] bv[q]),
            v == digits_value(d.subrange(0, m - k)),
            v <= 18446744,
        decreases i - m,
    {
        let digit = (b[m] - 48u8) as u64;
        proof {
            let p = d.subrange(0, m - k + 1);
            assert(p.drop_last() =~= d.subrange(0, m - k));
            assert(p.last() == bv[m as int]);
        }
        v = v * 10 + digit;
        m = m + 1;
        if v > 18446744 {
            proof {
                assert forall|q: int| 0 <= q < d.len() implies is_digit(#[trigger] d[q]) by {
                    assert(d[q] == bv[k + q]);
                }
                lemma_digits_value_prefix(d, m - k);
            }
            return true;
        }
    }
    proof {
        assert(d.subrange(0, m - k) =~= d);
    }
    false
}

/// A parsed invoice together with the text it was parsed from.
pub struct ParsedInvoice {
    inner: lightning_invoice::Invoice,
    source: String,
}

impl View for ParsedInvoice {
    type V = Seq<char>;

    /// The text the invoice was parsed from.
    closed spec fn view(&self) -> Seq<char> {
        self.source@
    }
}

/// `str::parse::<lightning_invoice::Invoice>`: succeeds exactly on valid invoices. It
/// is not called on a text whose amount without multiplier overflows: parsing such a
/// text multiplies the amount by 10^12 unchecked, which panics where overflow is
/// checked.
#[verifier::external_body]
fn parse_bolt11(s: &str) -> (r: Option<ParsedInvoice>)
    requires
        !unscaled_amount_overflows(s.spec_bytes()),
    ensures
        r is Some <==> bolt11_valid(s@),
        r matches Some(p) ==> p@ == s@,
{
    match s.parse::<lightning_invoice::Invoice>() {
        Ok(inner) => Some(ParsedInvoice { inner, source: s.to_string() }),
        Err(_) => None,
    }
}

/// `Invoice::to_string`: the canonical text of the invoice.
#[verifier::external_body]
fn invoice_text(p: &ParsedInvoice) -> (r: String)
    ensures
        r@ == bolt11_canonical(p@),
{
    p.inner.to_string()
}

/// `Invoice::payment_hash`: the 32 bytes of the payment hash.
#[verifier::external_body]
fn invoice_payment_hash(p: &ParsedInvoice) -> (r: Vec<u8>)
    ensures
        r@ == bolt11_payment_hash(p@),
        r@.len() == 32,
{
    <bitcoin::hashes::sha256::Hash as bitcoin::hashes::Hash>::into_inner(*p.inner.payment_hash()).to_vec()
}

/// `Invoice::amount_milli_satoshis`.
#[verifier::external_body]
fn invoice_amount_msat(p: &ParsedInvoice) -> (r: Option<u64>)
    ensures
        r == bolt11_amount_msat(p@),
{
    p.inner.amount_milli_satoshis()
}

/// `Invoice::description`: the direct description, or `None` for a description hash.
#[verifier::external_body]
fn invoice_description(p: &ParsedInvoice) -> (r: Option<String>)
    ensures
        match r {
            Some(d) => bolt11_description(p@) == Some(d@),
            None => bolt11_description(p@) is None,
        },
{
    match p.inner.description() {
        lightning_invoice::InvoiceDescription::Direct(d) => Some(d.to_string()),
        lightning_invoice::InvoiceDescription::Hash(_) => None,
    }
}

/// `Invoice::currency`.
#[verifier::external_body]
fn invoice_currency(p: &ParsedInvoice) -> (r: Currency)
    ensures
        r == bolt11_currency(p@),
{
    match p.inner.currency() {
        lightning_invoice::Currency::Bitcoin => Currency::Bitcoin,
        lightning_invoice::Currency::BitcoinTestnet => Currency::BitcoinTestnet,
        lightning_invoice::Currency::Regtest => Currency::Regtest,
        lightning_invoice::Currency::Simnet => Currency::Simnet,
        lightning_invoice::Currency::Signet => Currency::Signet,
    }
}

/// `Invoice::is_expired`: compares the invoice's expiry with the clock, so nothing is
/// stated of the answer.
#[verifier::external_body]
fn invoice_is_expired(p: &ParsedInvoice) -> (r: bool) {
    p.inner.is_expired()
}

/// What the library reads of an invoice.
pub struct InvoiceData {
    /// The canonical text of the invoice.
    pub bolt11: String,
    /// The payment hash, 32 bytes.
    pub payment_hash: Vec<u8>,
    pub amount_msat: Option<u64>,
    /// The description, or `None` where the invoice carries only its hash.
    pub description: Option<String>,
    pub currency: Currency,
}

/// The description as a plain value.
pub open spec fn opt_chars(o: Option<String>) -> Option<Seq<char>> {
    match o {
        Some(s) => Some(s@),
        None => None,
    }
}

/// `data` holds what the invoice `s` says.
pub open spec fn describes(data: InvoiceData, s: Seq<char>) -> bool {
    &&& data.bolt11@ == bolt11_canonical(s)
    &&& data.payment_hash@ == bolt11_payment_hash(s)
    &&& data.payment_hash@.len() == 32
    &&& data.amount_msat == bolt11_amount_msat(s)
    &&& opt_chars(data.description) == bolt11_description(s)
    &&& data.currency == bolt11_currency(s)
}

/// Decodes the invoice `s`; `None` where it is not a valid BOLT11 invoice or names an
/// amount too large to represent.
pub fn decode_bolt11(s: &str) -> (r: Option<InvoiceData>)
    ensures
        r is Some <==> bolt11_accepted(s@),
        r matches Some(d) ==> describes(d, s@),
{
    if amount_overflows(s) {
        return None;
    }
    match parse_bolt11(s) {
        Some(p) => Some(read_invoice(&p)),
        None => None,
    }
}

/// Reads the fields of a parsed invoice.
fn read_invoice(p: &ParsedInvoice) -> (d: InvoiceData)
    ensures
        describes(d, p@),
{
    InvoiceData {
        bolt11: invoice_text(p),
        payment_hash: invoice_payment_hash(p),
        amount_msat: invoice_amount_msat(p),
        description: invoice_description(p),
        currency: invoice_currency(p),
    }
}

/// Decodes the invoice `s` and tells whether it has expired by the clock; `None` where
/// it is not a valid invoice.
pub fn decode_bolt11_with_expiry(s: &str) -> (r: Option<(InvoiceData, bool)>)
    ensures
        r is Some <==> bolt11_accepted(s@),
        r matches Some(x) ==> describes(x.0, s@),
{
    if amount_overflows(s) {
        return None;
    }
    match parse_bolt11(s) {
        Some(p) => {
            let expired = invoice_is_expired(&p);
            Some((read_invoice(&p), expired))
        },
        None => None,
    }
}

/// `msat` millisatoshis in satoshis, rounded to the nearest, halves up.
pub open spec fn msat_to_sat_rounded(msat: u64) -> u64 {
    (msat / 1000 + if msat % 1000 >= 500 { 1u64 } else { 0u64 }) as u64
}

/// `msat` millisatoshis in satoshis, rounded to the nearest, halves up.
pub fn sat_rounded(msat: u64) -> (r: u64)
    ensures
        r == msat_to_sat_rounded(msat),
        r as int * 1000 - 500 <= msat < r as int * 1000 + 500,
{
    let q = msat / 1000;
    if msat % 1000 >= 500 {
        q + 1
    } else {
        q
    }
}

/// The fee reserve of a payment of `msat` millisatoshis: one percent, in satoshis,
/// rounded to the nearest.
pub open spec fn fee_for_msat(msat: u64) -> u64 {
    msat_to_sat_rounded(msat / 100)
}

/// The fee to reserve for paying `bolt11`: one percent of its amount, rounded to whole
/// satoshis; `Ok(None)` where the invoice names no amount, `Err` where it is not
/// accepted.
pub fn calculate_fee(bolt11: &str) -> (r: Result<Option<u64>, BridgeError>)
    ensures
        r is Ok <==> bolt11_accepted(bolt11@),
        r matches Err(e) ==> e is InvalidInvoice,
        r matches Ok(f) ==> f == match bolt11_amount_msat(bolt11@) {
            Some(msat) => Some(fee_for_msat(msat)),
            None => None,
        },
{
    match decode_bolt11(bolt11) {
        Some(d) => match d.amount_msat {
            Some(msat) => Ok(Some(sat_rounded(msat / 100))),
            None => Ok(None),
        },
        None => Err(BridgeError::InvalidInvoice),
    }
}

/// The payment hash of an invoice in hexadecimal, as the hash type displays it.
pub fn payment_hash_hex(hash: &Vec<u8>) -> (r: String)
    requires
        hash@.len() == 32,
    ensures
        r@ == hex_lower(hash@),
{
    let h = hex_lower_bytes(hash.as_slice());
    let ghost hv = h@;
    let s = ascii_string(h);
    proof {
        assert(ascii_chars_of(hv) =~= hex_lower(hash@));
    }
    s
}

} // verus!
