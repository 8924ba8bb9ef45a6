use vstd::prelude::*;

verus! {

/// Whether `id` carries the version and variant bits of a random (version 4,
/// RFC 4122 variant) UUID: the version nibble is 4 and the two top bits of
/// the variant field are `10`.
pub open spec fn is_random_uuid(id: u128) -> bool {
    &&& (id >> 76u128) & 0xfu128 == 4
    &&& (id >> 62u128) & 0x3u128 == 2
}

/// A fresh random id: calls `uuid::Uuid::new_v4` and returns its 128 bits
/// (`Uuid::as_u128`, big-endian). The bits come from the system's random
/// source; `new_v4` masks in the version and variant fields, and that is
/// all that is claimed of the result.
#[verifier::external_body]
pub(crate) fn new_random_id() -> (id: u128)
    ensures
        is_random_uuid(id),
{
    uuid::Uuid::new_v4().as_u128()
}

/// What `slug::slugify` makes of a text. Its definition runs through the
/// transliteration tables of `deunicode`, so it is only named here.
pub uninterp spec fn slug_of(text: Seq<char>) -> Seq<char>;

/// The shape that `slug::slugify` documents for its result: only `a`-`z`,
/// `0`-`9` and `-`, never two `-` in a row, and no `-` at either end.
pub open spec fn is_slug(s: Seq<char>) -> bool {
    &&& forall|i: int|
        0 <= i < s.len() ==> ('a' <= #[trigger] s[i] <= 'z' || '0' <= s[i] <= '9' || s[i] == '-')
    &&& forall|i: int| 0 <= i < s.len() - 1 ==> !(#[trigger] s[i] == '-' && s[i + 1] == '-')
    &&& s.len() > 0 ==> s[0] != '-' && s.last() != '-'
}

/// Calls `slug::slugify` on `text`. The result is `slug_of` of the text,
/// and it has the shape that the crate documents (`is_slug`); which slug a
/// given text gets is not stated beyond that.
#[verifier::external_body]
pub(crate) fn slugify_text(text: &str) -> (s: String)
    ensures
        s@ == slug_of(text@),
        is_slug(s@),
{
    slug::slugify(text)
}

/// An instant as seconds since the Unix epoch, UTC, and nanoseconds into
/// that second.
#[derive(PartialEq, Eq, Structural, Debug, Clone, Copy)]
pub struct Timestamp {
    pub secs: i64,
    pub nanos: u32,
}

/// The present instant: calls `chrono::Utc::now` and reads its seconds
/// (`DateTime::timestamp`) and nanoseconds (`timestamp_subsec_nanos`).
/// `Utc::now` builds the value from the system time since the Unix epoch
/// (it panics on a clock set before 1970), so the seconds are not negative
/// and the nanoseconds are below one second; the value itself depends on
/// the clock and is not stated.
#[verifier::external_body]
pub(crate) fn now_timestamp() -> (t: Timestamp)
    ensures
        t.secs >= 0,
        t.nanos < 1_000_000_000,
{
    let now = chrono::Utc::now();
    Timestamp { secs: now.timestamp(), nanos: now.timestamp_subsec_nanos() }
}

} // verus!
