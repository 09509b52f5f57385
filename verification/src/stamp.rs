//! Instants in time, held as nanoseconds since the Unix epoch, with their
//! RFC 3339 text through the `jiff` crate.
use vstd::prelude::*;

verus! {

/// Earliest instant `jiff` represents, in nanoseconds since the epoch.
pub const STAMP_MIN_NANOS: i128 = -377705023201_000000000i128;

/// Latest instant `jiff` represents, in nanoseconds since the epoch.
pub const STAMP_MAX_NANOS: i128 = 253402207200_999999999i128;

pub open spec fn stamp_valid(n: int) -> bool {
    STAMP_MIN_NANOS <= n <= STAMP_MAX_NANOS
}

/// An instant: nanoseconds since the Unix epoch, within `jiff`'s range.
#[derive(Clone, Copy, Debug)]
pub struct Stamp {
    nanos: i128,
}

impl View for Stamp {
    type V = int;

    closed spec fn view(&self) -> int {
        self.nanos as int
    }
}

impl Stamp {
    #[verifier::type_invariant]
    spec fn in_range(self) -> bool {
        stamp_valid(self.nanos as int)
    }

    /// The instant `nanos` nanoseconds after the epoch, if `jiff` can hold it.
    pub fn from_nanos(nanos: i128) -> (r: Option<Stamp>)
        ensures
            r is Some <==> stamp_valid(nanos as int),
            r matches Some(s) ==> s@ == nanos,
    {
        if STAMP_MIN_NANOS <= nanos && nanos <= STAMP_MAX_NANOS {
            Some(Stamp { nanos })
        } else {
            None
        }
    }

    /// Nanoseconds since the epoch.
    pub fn nanos(&self) -> (n: i128)
        ensures
            n == self@,
            stamp_valid(n as int),
    {
        proof {
            use_type_invariant(self);
        }
        self.nanos
    }

    /// Whether `self` is earlier than `other`.
    pub fn lt(&self, other: &Stamp) -> (r: bool)
        ensures
            r == (self@ < other@),
    {
        self.nanos < other.nanos
    }
}

/// What reading an instant's text gives: nanoseconds or an error message.
pub type StampRead = Result<int, Seq<char>>;

/// The RFC 3339 text that `jiff` writes for an instant.
pub uninterp spec fn stamp_display(n: int) -> Seq<char>;

/// What `jiff` reads from a text: nanoseconds, or its error message.
pub uninterp spec fn stamp_parse(s: Seq<char>) -> StampRead;

/// Calls `jiff::Timestamp::from_nanosecond` and then `to_string`. The text is
/// named by `stamp_display`.
#[verifier::external_body]
pub(crate) fn stamp_text(n: i128) -> (r: String)
    requires
        stamp_valid(n as int),
    ensures
        r@ == stamp_display(n as int),
{
    jiff::Timestamp::from_nanosecond(n).unwrap().to_string()
}

/// Calls `str::parse::<jiff::Timestamp>` and reads back the nanoseconds
/// (or the error's message). The result is named by `stamp_parse`. `jiff`
/// documents that a timestamp's `Display` text uses the precision needed to
/// render it losslessly and that `FromStr` reads that RFC 3339 text, so the
/// text of an instant reads back as that instant.
#[verifier::external_body]
pub(crate) fn stamp_from_text(s: &str) -> (r: Result<i128, String>)
    ensures
        r matches Ok(n) ==> stamp_valid(n as int),
        r matches Ok(n) ==> stamp_parse(s@) == StampRead::Ok(n as int),
        r matches Err(e) ==> stamp_parse(s@) == StampRead::Err(e@),
        r matches Ok(n) ==> forall|m: int| stamp_valid(m) && s@ == stamp_display(m) ==> n == m,
        r is Ok || forall|m: int| stamp_valid(m) ==> s@ != stamp_display(m),
{
    match s.parse::<jiff::Timestamp>() {
        Ok(t) => Ok(t.as_nanosecond()),
        Err(e) => Err(e.to_string()),
    }
}

impl Stamp {
    /// RFC 3339 text of the instant.
    pub fn to_text(&self) -> (r: String)
        ensures
            r@ == stamp_display(self@),
    {
        let n = self.nanos();
        stamp_text(n)
    }

    /// Reads an instant from RFC 3339 text, or gives `jiff`'s error message.
    pub fn from_text(s: &str) -> (r: Result<Stamp, String>)
        ensures
            r matches Ok(t) ==> stamp_parse(s@) == StampRead::Ok(t@),
            r matches Err(e) ==> stamp_parse(s@) == StampRead::Err(e@),
            forall|m: int| stamp_valid(m) && s@ == stamp_display(m) ==> (r matches Ok(t) && t@ == m),
    {
        match stamp_from_text(s) {
            Ok(n) => Ok(Stamp { nanos: n }),
            Err(e) => Err(e),
        }
    }
}

} // verus!
