//! The forum's domain: users and their sessions, forums, threads and replies.
use vstd::prelude::*;

verus! {

/// An instant, held as nanoseconds since the Unix epoch (UTC).
pub struct Created(pub i128);

/// The earliest instant `time` 0.2 represents, and so `Created::is8601`
/// renders: -100000-01-01T00:00:00Z.
pub const MIN_RENDERED_NANOS: i128 = -3217862419200000000000i128;

/// The latest instant `time` 0.2 represents, and so `Created::is8601`
/// renders: 100000-12-31T23:59:59.999999999Z.
pub const MAX_RENDERED_NANOS: i128 = 3093559603199999999999i128;

/// What `time` 0.2 renders for the UTC instant `unix_nanos` (nanoseconds since
/// the Unix epoch) with `OffsetDateTime::format` and the format `format`.
pub uninterp spec fn formatted_instant(unix_nanos: i128, format: Seq<char>) -> Seq<char>;

/// The format of the timestamps the service hands out.
pub open spec fn iso8601_format() -> Seq<char> {
    "%Y-%m-%dT%H:%M:%S.%NZ"@
}

/// Calls `time::OffsetDateTime::from_unix_timestamp_nanos(unix_nanos).format(format)`.
///
/// Trusted: the result is named `formatted_instant` of the two arguments. The
/// instant is kept inside the years the crate can represent, where building it
/// does not panic; the format is the one literal this service uses, which the
/// crate parses without error.
#[verifier::external_body]
fn format_instant(unix_nanos: i128, format: &str) -> (text: String)
    requires
        MIN_RENDERED_NANOS <= unix_nanos <= MAX_RENDERED_NANOS,
        format@ == iso8601_format(),
    ensures
        text@ == formatted_instant(unix_nanos, format@),
{
    time::OffsetDateTime::from_unix_timestamp_nanos(unix_nanos).format(format)
}

/// Reads the system clock with `time::OffsetDateTime::now_utc` and keeps it as
/// nanoseconds since the Unix epoch.
///
/// Trusted: which instant comes back depends on the clock; it is one that
/// `time` 0.2 represents, as every `OffsetDateTime` lies between the first
/// instant of year -100000 and the last of year 100000.
#[verifier::external_body]
pub(crate) fn now_utc() -> (created: Created)
    ensures
        MIN_RENDERED_NANOS <= created.0 <= MAX_RENDERED_NANOS,
{
    Created(time::OffsetDateTime::now_utc().unix_timestamp_nanos())
}

impl Created {
    /// The instant rendered as `%Y-%m-%dT%H:%M:%S.%NZ`.
    pub fn is8601(&self) -> (text: String)
        requires
            MIN_RENDERED_NANOS <= self.0 <= MAX_RENDERED_NANOS,
        ensures
            text@ == formatted_instant(self.0, iso8601_format()),
    {
        format_instant(self.0, "%Y-%m-%dT%H:%M:%S.%NZ")
    }
}

/// The public identifier of a forum.
pub struct ForumId(pub String);

/// The name of a forum.
pub struct ForumName(pub String);

/// The public identifier of a reply.
pub struct ReplyId(pub String);

/// The text of a reply.
pub struct ReplyText(pub String);

/// The public identifier of a session.
pub struct SessionId(pub String);

/// The public identifier of a thread.
pub struct ThreadId(pub String);

/// The name of a thread.
pub struct ThreadName(pub String);

/// The user agent a session was opened with.
pub struct UserAgent(pub String);

/// The public identifier of a user.
pub struct UserId(pub String);

/// The name a user goes by.
pub struct Username(pub String);

/// A forum, opened by a user.
pub struct Forum {
    pub id: ForumId,
    pub created: Created,
    pub created_by: UserId,
    pub name: ForumName,
}

/// A reply to a thread.
pub struct Reply {
    pub id: ReplyId,
    pub created: Created,
    pub created_by: UserId,
    pub thread: ThreadId,
    pub text: ReplyText,
}

/// A session of a user.
pub struct Session {
    pub id: SessionId,
    pub user_agent: UserAgent,
    pub created: Created,
}

/// A thread in a forum.
pub struct Thread {
    pub id: ThreadId,
    pub created: Created,
    pub created_by: UserId,
    pub forum: ForumId,
    pub name: ThreadName,
}

/// A user.
pub struct User {
    pub id: UserId,
    pub username: Username,
}

} // verus!
