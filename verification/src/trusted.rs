//! The calls this library makes into other crates and into parts of the
//! standard library that come without a contract. Nothing here is proved:
//! each contract states what the called function's source or
//! documentation shows.
use sha2::Digest;
use vstd::prelude::*;

verus! {

/// `String::push` appends one character at the end of the string.
pub assume_specification[ String::push ](s: &mut String, c: char)
    ensures
        final(s)@ == old(s)@.push(c),
;

/// The SHA-256 digest of a text's UTF-8 bytes, written as hexadecimal digits.
pub uninterp spec fn sha256_hex(content: Seq<char>) -> Seq<char>;

/// `sha2::Sha256::digest` on the text's UTF-8 bytes, formatted with `{:x}`.
/// The digest depends on the bytes alone, so it is given the name
/// `sha256_hex`.
#[verifier::external_body]
pub(crate) fn hash_text(content: &str) -> (digest: String)
    ensures
        digest@ == sha256_hex(content@),
{
    format!("{:x}", sha2::Sha256::digest(content.as_bytes()))
}

/// The hyphenated text of the version-5 UUID of a name within a namespace.
pub uninterp spec fn uuid_v5_text(namespace: u128, name: Seq<char>) -> Seq<char>;

/// `uuid::Uuid::new_v5` on the namespace with the given 128-bit value and on
/// the name's UTF-8 bytes, printed as `Uuid`'s `Display` prints it. The
/// result is a SHA-1 digest of the two arguments and of nothing else.
#[verifier::external_body]
pub(crate) fn uuid_v5(namespace: u128, name: &str) -> (id: String)
    ensures
        id@ == uuid_v5_text(namespace, name@),
{
    uuid::Uuid::new_v5(&uuid::Uuid::from_u128(namespace), name.as_bytes()).to_string()
}

/// `uuid::Uuid::new_v4`, as the 128-bit value that `as_u128` gives of it.
/// The value is random; nothing is claimed of it.
#[verifier::external_body]
pub(crate) fn random_uuid_value() -> (value: u128) {
    uuid::Uuid::new_v4().as_u128()
}

/// The hyphenated text of the UUID with a 128-bit value.
pub uninterp spec fn uuid_text(value: u128) -> Seq<char>;

/// `uuid::Uuid::from_u128`, printed as `Uuid`'s `Display` prints it: in
/// lower-case hexadecimal digits, with hyphens. The text depends on the
/// value alone.
#[verifier::external_body]
pub(crate) fn uuid_to_text(value: u128) -> (id: String)
    ensures
        id@ == uuid_text(value),
{
    uuid::Uuid::from_u128(value).to_string()
}

/// `std::time::SystemTime::elapsed` on the Unix epoch: the time that has
/// passed since then, as whole seconds and nanoseconds, or `None` when the
/// clock reads a time before the epoch. Nothing is claimed of the value.
#[verifier::external_body]
pub(crate) fn unix_time() -> (now: Option<(i64, u32)>) {
    std::time::UNIX_EPOCH.elapsed().ok().map(|d| (d.as_secs() as i64, d.subsec_nanos()))
}

/// The RFC 3339 text, in UTC, of an instant given as seconds and nanoseconds
/// since the Unix epoch; `None` where chrono cannot represent the instant.
pub uninterp spec fn rfc3339_of_unix(secs: i64, nanos: u32) -> Option<Seq<char>>;

/// `chrono::DateTime::from_timestamp` followed by `to_rfc3339`.
#[verifier::external_body]
pub(crate) fn rfc3339_from_unix(secs: i64, nanos: u32) -> (text: Option<String>)
    ensures
        match text {
            Some(t) => rfc3339_of_unix(secs, nanos) == Some(t@),
            None => rfc3339_of_unix(secs, nanos) is None,
        },
{
    chrono::DateTime::from_timestamp(secs, nanos).map(|t| t.to_rfc3339())
}

/// The RFC 3339 text, in UTC, of the instant that an RFC 3339 text denotes;
/// `None` where the text is not RFC 3339.
pub uninterp spec fn rfc3339_in_utc(text: Seq<char>) -> Option<Seq<char>>;

/// `chrono::DateTime::parse_from_rfc3339`, the result moved to UTC and
/// printed with `to_rfc3339`.
#[verifier::external_body]
pub(crate) fn parse_rfc3339(text: &str) -> (utc: Option<String>)
    ensures
        match utc {
            Some(t) => rfc3339_in_utc(text@) == Some(t@),
            None => rfc3339_in_utc(text@) is None,
        },
{
    chrono::DateTime::parse_from_rfc3339(text).ok().map(
        |t| t.with_timezone(&chrono::Utc).to_rfc3339(),
    )
}

/// The lower-case form of a text under Unicode's case mapping.
pub uninterp spec fn lowercase_of(s: Seq<char>) -> Seq<char>;

/// `str::to_lowercase`.
#[verifier::external_body]
pub(crate) fn lowercase(s: &str) -> (out: String)
    ensures
        out@ == lowercase_of(s@),
{
    s.to_lowercase()
}

/// A text with every byte of its UTF-8 form percent-encoded but for ASCII
/// letters and digits and `-`, `.`, `_`, `~`.
pub uninterp spec fn percent_encoded(text: Seq<char>) -> Seq<char>;

/// `urlencoding::encode`, which reads nothing but the text it is given.
#[verifier::external_body]
pub(crate) fn percent_encode(s: &str) -> (out: String)
    ensures
        out@ == percent_encoded(s@),
{
    urlencoding::encode(s).into_owned()
}

} // verus!
