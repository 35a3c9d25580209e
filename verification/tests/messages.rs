use rustdatabasen::chars::{begins_with, chars_of, lines_of, narrow_chars, string_of};
use rustdatabasen::messages::{open_error_message, seal_error_message, status_message};
use rustdatabasen::store::{OpenError, SealError};
use rustdatabasen::viewer::Status;

#[test]
fn every_open_error_has_its_message() {
    assert_eq!(
        open_error_message(OpenError::NotFound),
        "Ingen post hittades för denna identifierare"
    );
    assert_eq!(open_error_message(OpenError::DecodeError), "Fel vid avkodning av posten");
    assert_eq!(
        open_error_message(OpenError::LockedOut(900)),
        "🔒 Kontot är låst i 15 min 0 sek (för många misslyckade försök)"
    );
    assert_eq!(
        open_error_message(OpenError::LockedOut(61)),
        "🔒 Kontot är låst i 1 min 1 sek (för många misslyckade försök)"
    );
    assert_eq!(
        open_error_message(OpenError::LockedOut(59)),
        "🔒 Kontot är låst i 0 min 59 sek (för många misslyckade försök)"
    );
    assert_eq!(
        open_error_message(OpenError::WrongPassword(0)),
        "❌ Fel lösenord! Kontot är nu låst i 15 minuter."
    );
    assert_eq!(open_error_message(OpenError::WrongPassword(4)), "❌ Fel lösenord! 4 försök kvar.");
    assert_eq!(
        open_error_message(OpenError::FormatError),
        "Felaktigt dataformat - gammal kryptering?"
    );
}

#[test]
fn every_seal_error_has_its_message() {
    assert_eq!(
        seal_error_message(SealError::InvalidIdentifier),
        "ID får inte innehålla '|' eller radbrytning"
    );
    assert_eq!(seal_error_message(SealError::PayloadTooLarge), "Texten är för stor för att krypteras");
    assert_eq!(seal_error_message(SealError::PasswordTooLong), "Lösenordet är för långt");
    assert_eq!(seal_error_message(SealError::EntropyUnavailable), "Systemet gav inga slumptal");
}

#[test]
fn every_status_has_its_message() {
    assert_eq!(status_message(Status::Ready, "alice"), "Redo");
    assert_eq!(status_message(Status::MissingInput, "alice"), "Fyll i både ID och lösenord");
    assert_eq!(status_message(Status::Sealed, "alice"), "Krypterat och sparat för ID: alice");
    assert_eq!(status_message(Status::NoRows, "alice"), "Inga rader hittades");
    assert_eq!(status_message(Status::Showing(12), "alice"), "Visar 12 rader");
    assert_eq!(
        status_message(Status::OpenFailed(OpenError::WrongPassword(2)), "alice"),
        "Fel: ❌ Fel lösenord! 2 försök kvar."
    );
    assert_eq!(
        status_message(Status::SealFailed(SealError::PasswordTooLong), "alice"),
        "Fel: Lösenordet är för långt"
    );
}

#[test]
fn lines_are_what_the_standard_library_gives() {
    for text in ["", "\n", "a", "a\n", "a\nb", "a\r\nb\r\n", "a\r", "a\r\n\r\nb", "\r\n", "a\n\nb\n\n", "x\r\r\ny"] {
        let expected: Vec<String> = text.lines().map(|l| l.to_string()).collect();
        let found: Vec<String> =
            lines_of(&chars_of(text)).iter().map(|l| string_of(l)).collect();
        assert_eq!(found, expected);
    }
}

#[test]
fn prefixes_and_narrow_bytes() {
    assert!(begins_with(&chars_of("alice:blob"), &chars_of("alice:")));
    assert!(begins_with(&chars_of("alice:"), &chars_of("alice:")));
    assert!(begins_with(&chars_of("x"), &chars_of("")));
    assert!(!begins_with(&chars_of("alice"), &chars_of("alice:")));
    assert!(!begins_with(&chars_of("blice:x"), &chars_of("alice:")));
    assert_eq!(narrow_chars(&chars_of("aZ09+/=")), b"aZ09+/=".to_vec());
    assert_eq!(narrow_chars(&chars_of("a\u{7f}é\u{80}")), vec![b'a', 0x7f, 255, 255]);
}
