//! The one message that each status and each error is shown with.

use vstd::prelude::*;
use vstd::string::StringExecFns;

use crate::chars::{push_decimal, widen};
use crate::decimal::decimal_text;
use crate::store::{OpenError, SealError};
use crate::viewer::Status;

verus! {

/// A number in decimal, as text.
pub open spec fn number_text(n: nat) -> Seq<char> {
    widen(decimal_text(n))
}

/// The message for an open that failed.
pub open spec fn open_error_text(e: OpenError) -> Seq<char> {
    match e {
        OpenError::NotFound => "Ingen post hittades för denna identifierare"@,
        OpenError::DecodeError => "Fel vid avkodning av posten"@,
        OpenError::LockedOut(remaining) => "🔒 Kontot är låst i "@ + number_text(
            (remaining / 60) as nat,
        ) + " min "@ + number_text((remaining % 60) as nat)
            + " sek (för många misslyckade försök)"@,
        OpenError::WrongPassword(left) => if left == 0 {
            "❌ Fel lösenord! Kontot är nu låst i 15 minuter."@
        } else {
            "❌ Fel lösenord! "@ + number_text(left as nat) + " försök kvar."@
        },
        OpenError::FormatError => "Felaktigt dataformat - gammal kryptering?"@,
    }
}

/// The message for a seal that failed.
pub open spec fn seal_error_text(e: SealError) -> Seq<char> {
    match e {
        SealError::InvalidIdentifier => "ID får inte innehålla '|' eller radbrytning"@,
        SealError::PayloadTooLarge => "Texten är för stor för att krypteras"@,
        SealError::PasswordTooLong => "Lösenordet är för långt"@,
        SealError::EntropyUnavailable => "Systemet gav inga slumptal"@,
    }
}

/// The message for a status of the viewer.
pub open spec fn status_text(status: Status, identifier: Seq<char>) -> Seq<char> {
    match status {
        Status::Ready => "Redo"@,
        Status::MissingInput => "Fyll i både ID och lösenord"@,
        Status::Sealed => "Krypterat och sparat för ID: "@ + identifier,
        Status::SealFailed(e) => "Fel: "@ + seal_error_text(e),
        Status::NoRows => "Inga rader hittades"@,
        Status::Showing(n) => "Visar "@ + number_text(n as nat) + " rader"@,
        Status::OpenFailed(e) => "Fel: "@ + open_error_text(e),
    }
}

/// Writes the message for an open that failed.
pub fn open_error_message(e: OpenError) -> (text: String)
    ensures
        text@ == open_error_text(e),
{
    match e {
        OpenError::NotFound => String::from_str("Ingen post hittades för denna identifierare"),
        OpenError::DecodeError => String::from_str("Fel vid avkodning av posten"),
        OpenError::LockedOut(remaining) => {
            let mut text = String::from_str("🔒 Kontot är låst i ");
            push_decimal(&mut text, remaining / 60);
            text.append(" min ");
            push_decimal(&mut text, remaining % 60);
            text.append(" sek (för många misslyckade försök)");
            assert(text@ =~= open_error_text(e));
            text
        },
        OpenError::WrongPassword(left) => if left == 0 {
            String::from_str("❌ Fel lösenord! Kontot är nu låst i 15 minuter.")
        } else {
            let mut text = String::from_str("❌ Fel lösenord! ");
            push_decimal(&mut text, left as u64);
            text.append(" försök kvar.");
            assert(text@ =~= open_error_text(e));
            text
        },
        OpenError::FormatError => String::from_str("Felaktigt dataformat - gammal kryptering?"),
    }
}

/// Writes the message for a seal that failed.
pub fn seal_error_message(e: SealError) -> (text: String)
    ensures
        text@ == seal_error_text(e),
{
    match e {
        SealError::InvalidIdentifier => String::from_str(
            "ID får inte innehålla '|' eller radbrytning",
        ),
        SealError::PayloadTooLarge => String::from_str("Texten är för stor för att krypteras"),
        SealError::PasswordTooLong => String::from_str("Lösenordet är för långt"),
        SealError::EntropyUnavailable => String::from_str("Systemet gav inga slumptal"),
    }
}

/// Writes the message for a status of the viewer.
pub fn status_message(status: Status, identifier: &str) -> (text: String)
    ensures
        text@ == status_text(status, identifier@),
{
    match status {
        Status::Ready => String::from_str("Redo"),
        Status::MissingInput => String::from_str("Fyll i både ID och lösenord"),
        Status::Sealed => {
            let mut text = String::from_str("Krypterat och sparat för ID: ");
            text.append(identifier);
            text
        },
        Status::SealFailed(e) => {
            let mut text = String::from_str("Fel: ");
            let reason = seal_error_message(e);
            text.append(reason.as_str());
            text
        },
        Status::NoRows => String::from_str("Inga rader hittades"),
        Status::Showing(n) => {
            let mut text = String::from_str("Visar ");
            push_decimal(&mut text, n as u64);
            text.append(" rader");
            assert(text@ =~= status_text(status, identifier@));
            text
        },
        Status::OpenFailed(e) => {
            let mut text = String::from_str("Fel: ");
            let reason = open_error_message(e);
            text.append(reason.as_str());
            text
        },
    }
}

} // verus!
