//! The decisions of the GraphQL resolvers: which record a query looks up and
//! what a mutation creates.
use crate::domain::{
    now_utc, Created, MAX_RENDERED_NANOS, MIN_RENDERED_NANOS, Forum, ForumId, ForumName, Reply, ReplyId, ReplyText, Thread, ThreadId,
    ThreadName, User, UserId, Username,
};
use vstd::prelude::*;

verus! {

/// The root of the queries.
pub struct QueryRoot;

/// The root of the mutations.
pub struct MutationRoot;

/// The fields of a new forum.
pub struct ForumInput {
    pub name: String,
}

/// The fields of a new reply.
pub struct ReplyInput {
    pub text: String,
    pub thread_id: String,
}

/// The fields of a new thread.
pub struct ThreadInput {
    pub name: String,
    pub forum_id: String,
}

/// The argument of `createForum`.
pub struct CreateForumInput {
    pub forum: ForumInput,
}

/// The argument of `createReply`.
pub struct CreateReplyInput {
    pub reply: ReplyInput,
}

/// The argument of `createThread`.
pub struct CreateThreadInput {
    pub thread: ThreadInput,
}

/// The argument of `createUser`.
pub struct CreateUserInput {
    pub username: String,
}

/// Which user the `user` query looks up.
pub enum UserLookup {
    /// By public identifier.
    ById(UserId),
    /// By name.
    ByUsername(Username),
    /// Neither was given: the answer is no user.
    NoKey,
}

/// Whether `c` is a lower-case hexadecimal digit.
pub open spec fn is_lower_hex(c: char) -> bool {
    ('0' <= c <= '9') || ('a' <= c <= 'f')
}

/// Whether `text` is a version-4 UUID in hyphenated lower-case form:
/// `xxxxxxxx-xxxx-4xxx-Vxxx-xxxxxxxxxxxx`, `V` one of `8`, `9`, `a`, `b`
/// (the random version and the RFC 4122 variant).
pub open spec fn is_uuid_v4(text: Seq<char>) -> bool {
    &&& text.len() == 36
    &&& forall|i: int|
        0 <= i < 36 ==> if i == 8 || i == 13 || i == 18 || i == 23 {
            #[trigger] text[i] == '-'
        } else {
            is_lower_hex(text[i])
        }
    &&& text[14] == '4'
    &&& (text[19] == '8' || text[19] == '9' || text[19] == 'a' || text[19] == 'b')
}

/// Draws a random UUID with `uuid::Uuid::new_v4` and renders it with `to_string`.
///
/// Trusted: the text is the hyphenated lower-case form that the crate's
/// `Display` writes, and `new_v4` sets the version nibble to 4 and the
/// variant bits to `10`; which UUID is drawn is left open.
#[verifier::external_body]
fn new_public_id() -> (id: String)
    ensures
        is_uuid_v4(id@),
{
    uuid::Uuid::new_v4().to_string()
}

/// Whether `HeaderValue::to_str` accepts the byte: visible ASCII or tab.
pub open spec fn is_visible_ascii(b: u8) -> bool {
    (32 <= b && b < 127) || b == 9
}

/// The characters of ASCII bytes.
pub open spec fn ascii_chars(bytes: Seq<u8>) -> Seq<char> {
    bytes.map_values(|b: u8| b as char)
}

/// Calls `String::from_utf8`.
///
/// Trusted: ASCII bytes are valid UTF-8, each the encoding of the character
/// with its code, so the text is there and holds those characters.
#[verifier::external_body]
fn text_of_ascii(bytes: Vec<u8>) -> (text: Option<String>)
    requires
        forall|i: int| 0 <= i < bytes@.len() ==> bytes@[i] < 128,
    ensures
        text is Some,
        text->0@ == ascii_chars(bytes@),
{
    match String::from_utf8(bytes) {
        Ok(text) => Some(text),
        Err(_) => None,
    }
}

/// The user a request names in its `user-id` header, read as
/// `HeaderValue::to_str` reads it: the header's text where every byte is
/// visible ASCII or tab, else nobody (as where there is no header).
pub fn user_from_header(value: Option<&[u8]>) -> (user: Option<UserId>)
    ensures
        user is Some == (value is Some && forall|i: int|
            0 <= i < value->0@.len() ==> is_visible_ascii(#[trigger] value->0@[i])),
        user matches Some(u) ==> u.0@ == ascii_chars(value->0@),
        value is Some && (forall|i: int|
            0 <= i < value->0@.len() ==> (32 <= #[trigger] value->0@[i] <= 126 || value->0@[i]
                == 9)) ==> user is Some,
        value is Some && (exists|i: int|
            0 <= i < value->0@.len() && !(32 <= #[trigger] value->0@[i] <= 126 || value->0@[i]
                == 9)) ==> user is None,
        user matches Some(u) ==> u.0@.len() == value->0@.len() && forall|i: int|
            0 <= i < u.0@.len() ==> #[trigger] u.0@[i] as u32 == value->0@[i] as u32,
{
    let bytes = match value {
        Some(bytes) => bytes,
        None => return None,
    };
    let mut copy: Vec<u8> = Vec::new();
    let mut i: usize = 0;
    while i < bytes.len()
        invariant
            value is Some,
            value->0@ == bytes@,
            i <= bytes@.len(),
            copy@ == bytes@.take(i as int),
            forall|j: int| 0 <= j < i ==> is_visible_ascii(#[trigger] bytes@[j]),
        decreases bytes@.len() - i,
    {
        let b = bytes[i];
        if !((32 <= b && b < 127) || b == 9) {
            assert(!is_visible_ascii(bytes@[i as int]));
            return None;
        }
        copy.push(b);
        assert(copy@ =~= bytes@.take(i + 1));
        i = i + 1;
    }
    assert(copy@ =~= bytes@);
    match text_of_ascii(copy) {
        Some(text) => {
            assert forall|i: int| 0 <= i < text@.len() implies #[trigger] text@[i] as u32
                == bytes@[i] as u32 by {
                assert(text@[i] == bytes@[i] as char);
            }
            Some(UserId(text))
        },
        None => None,
    }
}

impl QueryRoot {
    /// The sum of two numbers.
    pub fn add(&self, a: i32, b: i32) -> (sum: i32)
        requires
            i32::MIN <= a + b <= i32::MAX,
        ensures
            sum == a + b,
    {
        a + b
    }

    /// The lookup the `user` query makes: by identifier when one is given,
    /// else by name when one is given, else none.
    pub fn user_lookup(&self, id: Option<String>, username: Option<String>) -> (lookup:
        UserLookup)
        ensures
            id matches Some(i) ==> lookup == UserLookup::ById(UserId(i)),
            id is None && username is Some ==> lookup == UserLookup::ByUsername(
                Username(username->0),
            ),
            id is None && username is None ==> lookup == UserLookup::NoKey,
    {
        match id {
            Some(id) => UserLookup::ById(UserId(id)),
            None => match username {
                Some(username) => UserLookup::ByUsername(Username(username)),
                None => UserLookup::NoKey,
            },
        }
    }
}

impl MutationRoot {
    /// The forum made of a drawn identifier, a clock reading, its creator and
    /// the input.
    pub fn forum_record(&self, id: String, created: Created, user_id: UserId, input: CreateForumInput) -> (forum: Forum)
        ensures
            forum == (Forum {
                id: ForumId(id),
                created,
                created_by: user_id,
                name: ForumName(input.forum.name),
            }),
    {
        Forum { id: ForumId(id), created, created_by: user_id, name: ForumName(input.forum.name) }
    }

    /// The reply made of a drawn identifier, a clock reading, its creator and
    /// the input.
    pub fn reply_record(&self, id: String, created: Created, user_id: UserId, input: CreateReplyInput) -> (reply: Reply)
        ensures
            reply == (Reply {
                id: ReplyId(id),
                created,
                created_by: user_id,
                thread: ThreadId(input.reply.thread_id),
                text: ReplyText(input.reply.text),
            }),
    {
        Reply {
            id: ReplyId(id),
            created,
            created_by: user_id,
            thread: ThreadId(input.reply.thread_id),
            text: ReplyText(input.reply.text),
        }
    }

    /// The thread made of a drawn identifier, a clock reading, its creator
    /// and the input.
    pub fn thread_record(&self, id: String, created: Created, user_id: UserId, input: CreateThreadInput) -> (thread: Thread)
        ensures
            thread == (Thread {
                id: ThreadId(id),
                created,
                created_by: user_id,
                forum: ForumId(input.thread.forum_id),
                name: ThreadName(input.thread.name),
            }),
    {
        Thread {
            id: ThreadId(id),
            created,
            created_by: user_id,
            forum: ForumId(input.thread.forum_id),
            name: ThreadName(input.thread.name),
        }
    }

    /// The user made of a drawn identifier and the input.
    pub fn user_record(&self, id: String, input: CreateUserInput) -> (user: User)
        ensures
            user == (User { id: UserId(id), username: Username(input.username) }),
    {
        User { id: UserId(id), username: Username(input.username) }
    }

    /// The forum `createForum` stores for the signed-in user: a fresh
    /// version-4 identifier, the current time, the user, and the name given.
    /// Nobody signed in: no forum, and nothing is drawn.
    pub fn new_forum(&self, user_id: Option<UserId>, input: CreateForumInput) -> (forum: Option<
        Forum,
    >)
        ensures
            forum is Some == user_id is Some,
            forum matches Some(f) ==> {
                &&& is_uuid_v4(f.id.0@)
                &&& MIN_RENDERED_NANOS <= f.created.0 <= MAX_RENDERED_NANOS
                &&& f.created_by == user_id->0
                &&& f.name == ForumName(input.forum.name)
            },
    {
        match user_id {
            Some(user_id) => Some(self.forum_record(new_public_id(), now_utc(), user_id, input)),
            None => None,
        }
    }

    /// The reply `createReply` stores for the signed-in user: a fresh
    /// version-4 identifier, the current time, the user, the thread and the
    /// text given. Nobody signed in: no reply.
    pub fn new_reply(&self, user_id: Option<UserId>, input: CreateReplyInput) -> (reply: Option<
        Reply,
    >)
        ensures
            reply is Some == user_id is Some,
            reply matches Some(r) ==> {
                &&& is_uuid_v4(r.id.0@)
                &&& MIN_RENDERED_NANOS <= r.created.0 <= MAX_RENDERED_NANOS
                &&& r.created_by == user_id->0
                &&& r.thread == ThreadId(input.reply.thread_id)
                &&& r.text == ReplyText(input.reply.text)
            },
    {
        match user_id {
            Some(user_id) => Some(self.reply_record(new_public_id(), now_utc(), user_id, input)),
            None => None,
        }
    }

    /// The thread `createThread` stores for the signed-in user: a fresh
    /// version-4 identifier, the current time, the user, the forum and the
    /// name given. Nobody signed in: no thread.
    pub fn new_thread(&self, user_id: Option<UserId>, input: CreateThreadInput) -> (thread:
        Option<Thread>)
        ensures
            thread is Some == user_id is Some,
            thread matches Some(t) ==> {
                &&& is_uuid_v4(t.id.0@)
                &&& MIN_RENDERED_NANOS <= t.created.0 <= MAX_RENDERED_NANOS
                &&& t.created_by == user_id->0
                &&& t.forum == ForumId(input.thread.forum_id)
                &&& t.name == ThreadName(input.thread.name)
            },
    {
        match user_id {
            Some(user_id) => Some(self.thread_record(new_public_id(), now_utc(), user_id, input)),
            None => None,
        }
    }

    /// The user `createUser` stores: a fresh version-4 identifier and the
    /// name given.
    pub fn new_user(&self, input: CreateUserInput) -> (user: User)
        ensures
            is_uuid_v4(user.id.0@),
            user.username == Username(input.username),
    {
        self.user_record(new_public_id(), input)
    }

    /// What a mutation answers once the store has been asked to insert
    /// `record`: the record where it was inserted, else nothing (the insert
    /// is skipped on a conflict).
    pub fn stored<T>(&self, record: T, inserted: bool) -> (answer: Option<T>)
        ensures
            answer == (if inserted {
                Some(record)
            } else {
                None
            }),
    {
        if inserted {
            Some(record)
        } else {
            None
        }
    }
}

} // verus!
