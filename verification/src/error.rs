//! The failures that the bridge reports.

use vstd::prelude::*;

use crate::database::DbError;
use crate::invoice::Currency;

verus! {

/// A failure of a bridge operation.
#[derive(Debug)]
pub enum BridgeError {
    /// No client is kept under the label.
    NoSuchClient,
    /// No client is kept at all.
    JoinFederationFirst,
    /// A client of the federation is already kept.
    ClientAlreadyExists,
    /// The federation config does not describe a federation.
    InvalidFederationCode,
    /// The client to remove is not kept.
    ClientDoesNotExist,
    /// The client has not reached its federation.
    ClientNotConnected,
    /// An outgoing payment of the invoice is already recorded.
    CannotPayTwice,
    /// The text is not a valid lightning invoice.
    InvalidInvoice,
    /// The invoice is for another network than the client's.
    WrongNetwork { expected: Currency, got: Currency },
    /// The invoice has expired.
    InvoiceExpired,
    /// The invoice does not name an amount.
    InvoiceMissingAmount,
    /// Invoices on mainnet are limited to 60000 satoshis.
    InvoiceTooLarge,
    /// No payment with the hash is recorded.
    PaymentNotFound,
    /// The payment hash is not 64 hexadecimal digits.
    InvalidPaymentHash,
    /// The client's storage holds no federation config.
    NoConfigString,
    /// The lightning payment failed; the text says why.
    PaymentFailed(String),
    /// A stored record could not be decoded.
    CorruptRecord,
    /// The storage failed.
    Database(DbError),
}

} // verus!
