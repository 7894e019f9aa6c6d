//! Restoring settings from an exported blob: the `encoded_prefs` field of
//! a posted form holds the preferences, compressed and then base2048-encoded.

use vstd::prelude::*;
use crate::text::{chars_of, string_of, push_all};
use crate::form::{form_pairs, form_first, parse_form, pairs_to_chars, lookup_first};

verus! {

/// The largest request body an encoded restore accepts, in bytes (1 MiB).
pub const MAX_ENCODED_BODY: usize = 1048576;

/// Why an encoded restore was refused.
#[derive(Debug, PartialEq, Eq, Structural)]
pub enum RestoreError {
    /// The body is over `MAX_ENCODED_BODY` bytes.
    BodyTooLarge,
    /// The form has no `encoded_prefs` field.
    MissingEncodedPrefs,
    /// Decoding the field would reach a character past the end of
    /// base2048's decoding table (every character before it being a valid
    /// digit).
    UnsupportedCharacter,
    /// The field is not valid base2048.
    DecodeFailed,
}

impl RestoreError {
    /// The text sent back for this error.
    pub open spec fn spec_message(&self) -> Seq<char> {
        match self {
            RestoreError::BodyTooLarge => "Request body too large"@,
            RestoreError::MissingEncodedPrefs => "encoded_prefs parameter not found in request body"@,
            RestoreError::UnsupportedCharacter => "encoded_prefs holds a character outside the base2048 table"@,
            RestoreError::DecodeFailed => "Failed to decode base2048 encoded preferences"@,
        }
    }

    /// The text sent back for this error.
    pub fn message(&self) -> (m: &'static str)
        ensures
            m@ == self.spec_message(),
    {
        match self {
            RestoreError::BodyTooLarge => "Request body too large",
            RestoreError::MissingEncodedPrefs => "encoded_prefs parameter not found in request body",
            RestoreError::UnsupportedCharacter => "encoded_prefs holds a character outside the base2048 table",
            RestoreError::DecodeFailed => "Failed to decode base2048 encoded preferences",
        }
    }
}

/// The bytes that `base2048::decode` gives back for `s`, or `None` where
/// `s` is not valid base2048.
pub uninterp spec fn base2048_decoded(s: Seq<char>) -> Option<Seq<u8>>;

/// The entry of base2048's decoding table for `c` (`0xFFFF` marks a
/// character that is not a digit), or `None` when `c` lies past the table.
pub uninterp spec fn base2048_table_entry(c: char) -> Option<u16>;

/// The entry that marks a character as not a base2048 digit.
pub const NOT_A_DIGIT: u16 = 0xFFFF;

/// Reads base2048's decoding table.
///
/// Trusted: reads `base2048::DEC_TABLE` at the character's code point with
/// `get`, which gives `None` past the table's end; the entry is named
/// `base2048_table_entry`.
#[verifier::external_body]
fn table_entry(c: char) -> (e: Option<u16>)
    ensures
        e == base2048_table_entry(c),
{
    base2048::DEC_TABLE.get(c as usize).copied()
}

/// Decoding `s` reaches a character past the table: there is one, and
/// every character before it is a digit (at the first non-digit that is
/// followed by more text, `base2048::decode` stops with `None`).
pub open spec fn reaches_past_table(s: Seq<char>) -> bool {
    exists|i: int|
        0 <= i < s.len() && (#[trigger] base2048_table_entry(s[i])) is None && forall|j: int|
            0 <= j < i ==> base2048_table_entry(s[j]) != Some(NOT_A_DIGIT)
}

/// Decodes base2048 text.
///
/// Trusted: calls `base2048::decode`, whose result is named
/// `base2048_decoded`. It indexes its decoding table by each character it
/// reads and panics on one past the table; it stops at the first non-digit
/// that has text after it, so the ruled-out inputs are those where such a
/// character is reached.
#[verifier::external_body]
fn decode_base2048(s: &str) -> (r: Option<Vec<u8>>)
    requires
        !reaches_past_table(s@),
    ensures
        match r {
            Some(b) => base2048_decoded(s@) == Some(b@),
            None => base2048_decoded(s@) is None,
        },
{
    base2048::decode(s)
}

/// The outcome for a decoded field: the bytes, or `DecodeFailed`.
pub fn prefs_from_decoded(decoded: Option<Vec<u8>>) -> (r: Result<Vec<u8>, RestoreError>)
    ensures
        match decoded {
            Some(b) => r == Ok::<Vec<u8>, RestoreError>(b),
            None => r == Err::<Vec<u8>, RestoreError>(RestoreError::DecodeFailed),
        },
{
    match decoded {
        Some(b) => Ok(b),
        None => Err(RestoreError::DecodeFailed),
    }
}

/// What an encoded restore makes of the field's text.
pub open spec fn decode_outcome(value: Seq<char>) -> Result<Seq<u8>, RestoreError> {
    if reaches_past_table(value) {
        Err(RestoreError::UnsupportedCharacter)
    } else {
        match base2048_decoded(value) {
            Some(b) => Ok(b),
            None => Err(RestoreError::DecodeFailed),
        }
    }
}

/// What an encoded restore makes of a posted body, before decompression.
pub open spec fn encoded_restore_outcome(body: Seq<u8>) -> Result<Seq<u8>, RestoreError> {
    if body.len() > MAX_ENCODED_BODY {
        Err(RestoreError::BodyTooLarge)
    } else {
        match form_first(form_pairs(body), "encoded_prefs"@) {
            None => Err(RestoreError::MissingEncodedPrefs),
            Some(v) => decode_outcome(v),
        }
    }
}

/// The outcome as plain values.
pub open spec fn outcome_view(r: Result<Vec<u8>, RestoreError>) -> Result<Seq<u8>, RestoreError> {
    match r {
        Ok(b) => Ok(b@),
        Err(e) => Err(e),
    }
}

/// Decodes the base2048 text of an `encoded_prefs` field.
pub fn decode_encoded_prefs(value: &str) -> (r: Result<Vec<u8>, RestoreError>)
    requires
        !reaches_past_table(value@),
    ensures
        outcome_view(r) == decode_outcome(value@),
{
    let decoded = decode_base2048(value);
    prefs_from_decoded(decoded)
}

/// Whether decoding `value` would reach a character past base2048's table.
pub fn decode_reaches_past_table(value: &str) -> (past: bool)
    ensures
        past == reaches_past_table(value@),
{
    let chars = chars_of(value);
    let mut i: usize = 0;
    while i < chars.len()
        invariant
            i <= chars.len(),
            chars@ == value@,
            forall|j: int|
                0 <= j < i ==> (#[trigger] base2048_table_entry(chars@[j])) is Some
                    && base2048_table_entry(chars@[j]) != Some(NOT_A_DIGIT),
        decreases chars.len() - i,
    {
        match table_entry(chars[i]) {
            None => {
                assert(base2048_table_entry(value@[i as int]) is None);
                return true;
            },
            Some(e) => {
                if e == NOT_A_DIGIT {
                    assert forall|k: int|
                        0 <= k < value@.len() && (#[trigger] base2048_table_entry(value@[k])) is None
                        implies !(forall|j: int|
                        0 <= j < k ==> base2048_table_entry(value@[j]) != Some(NOT_A_DIGIT)) by {
                        if k > i {
                            assert(base2048_table_entry(value@[i as int]) == Some(NOT_A_DIGIT));
                        }
                    }
                    return false;
                }
            },
        }
        i = i + 1;
    }
    false
}

/// Unpacks an exported preferences blob from a posted form: refuses a
/// body over 1 MiB, takes the first `encoded_prefs` field and decodes it
/// from base2048. The bytes are still compressed.
pub fn encoded_restore(body: &[u8]) -> (r: Result<Vec<u8>, RestoreError>)
    ensures
        outcome_view(r) == encoded_restore_outcome(body@),
{
    if body.len() > MAX_ENCODED_BODY {
        return Err(RestoreError::BodyTooLarge);
    }
    let form = parse_form(body);
    let pairs = pairs_to_chars(&form);
    let name = chars_of("encoded_prefs");
    match lookup_first(&pairs, &name) {
        None => Err(RestoreError::MissingEncodedPrefs),
        Some(v) => {
            let value = string_of(v);
            if decode_reaches_past_table(value.as_str()) {
                Err(RestoreError::UnsupportedCharacter)
            } else {
                decode_encoded_prefs(value.as_str())
            }
        },
    }
}

/// Where a decoded blob sends the browser: the restore page, with the
/// preferences as its query string.
pub fn restore_location(query: &str) -> (location: String)
    ensures
        location@ == "/settings/restore/?"@ + query@,
{
    let mut out = chars_of("/settings/restore/?");
    let q = chars_of(query);
    push_all(&mut out, &q);
    string_of(&out)
}

} // verus!

verus! {

/// Only the first `encoded_prefs` field counts: two bodies within the size
/// limit whose parsed forms agree on it restore alike, whatever else they hold.
pub proof fn lemma_encoded_restore_reads_first_field(a: Seq<u8>, b: Seq<u8>)
    requires
        a.len() <= MAX_ENCODED_BODY,
        b.len() <= MAX_ENCODED_BODY,
        form_first(form_pairs(a), "encoded_prefs"@) == form_first(form_pairs(b), "encoded_prefs"@),
    ensures
        encoded_restore_outcome(a) == encoded_restore_outcome(b),
{
}

} // verus!

verus! {

/// When the first `encoded_prefs` field is valid base2048 and its decoding
/// reaches no character past the table, the restore yields exactly the
/// bytes base2048 decodes it to, all of them; when base2048 rejects the
/// field, the restore fails with `DecodeFailed`.
pub proof fn lemma_encoded_restore_yields_decoded_bytes(body: Seq<u8>, v: Seq<char>)
    requires
        body.len() <= MAX_ENCODED_BODY,
        form_first(form_pairs(body), "encoded_prefs"@) == Some(v),
        !reaches_past_table(v),
    ensures
        forall|b: Seq<u8>|
            base2048_decoded(v) == Some(b) ==> #[trigger] encoded_restore_outcome(body) == Ok::<
                Seq<u8>,
                RestoreError,
            >(b) && b.len() == base2048_decoded(v)->0.len(),
        base2048_decoded(v) is None ==> encoded_restore_outcome(body) == Err::<
            Seq<u8>,
            RestoreError,
        >(RestoreError::DecodeFailed),
{
}

} // verus!
