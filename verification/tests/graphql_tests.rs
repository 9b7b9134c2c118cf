use rust_graphql_kata_001_web::domain::{Created, UserId, Username};
use rust_graphql_kata_001_web::graphql::{
    CreateForumInput, CreateReplyInput, CreateThreadInput, CreateUserInput, ForumInput,
    MutationRoot, QueryRoot, ReplyInput, ThreadInput, UserLookup, user_from_header,
};

fn is_uuid_v4(text: &str) -> bool {
    let chars: Vec<char> = text.chars().collect();
    chars.len() == 36
        && chars.iter().enumerate().all(|(i, c)| {
            if [8, 13, 18, 23].contains(&i) {
                *c == '-'
            } else {
                c.is_ascii_digit() || ('a'..='f').contains(c)
            }
        })
        && chars[14] == '4'
        && ['8', '9', 'a', 'b'].contains(&chars[19])
}

#[test]
fn add_adds() {
    assert_eq!(QueryRoot.add(2, 40), 42);
    assert_eq!(QueryRoot.add(i32::MAX, i32::MIN), -1);
}

#[test]
fn user_lookup_prefers_the_identifier() {
    match QueryRoot.user_lookup(Some("id-1".to_string()), Some("alice".to_string())) {
        UserLookup::ById(UserId(id)) => assert_eq!(id, "id-1"),
        _ => panic!("expected a lookup by identifier"),
    }
    match QueryRoot.user_lookup(None, Some("alice".to_string())) {
        UserLookup::ByUsername(Username(name)) => assert_eq!(name, "alice"),
        _ => panic!("expected a lookup by name"),
    }
    assert!(matches!(QueryRoot.user_lookup(None, None), UserLookup::NoKey));
}

#[test]
fn nobody_signed_in_creates_nothing() {
    let input = CreateForumInput { forum: ForumInput { name: "rust".to_string() } };
    assert!(MutationRoot.new_forum(None, input).is_none());
    let input = CreateThreadInput {
        thread: ThreadInput { name: "t".to_string(), forum_id: "f".to_string() },
    };
    assert!(MutationRoot.new_thread(None, input).is_none());
    let input = CreateReplyInput {
        reply: ReplyInput { text: "r".to_string(), thread_id: "t".to_string() },
    };
    assert!(MutationRoot.new_reply(None, input).is_none());
}

#[test]
fn signed_in_user_creates_with_fresh_identifiers() {
    let input = CreateForumInput { forum: ForumInput { name: "rust".to_string() } };
    let forum = MutationRoot.new_forum(Some(UserId("u".to_string())), input).unwrap();
    assert!(is_uuid_v4(&forum.id.0));
    assert_eq!(forum.created_by.0, "u");
    assert_eq!(forum.name.0, "rust");

    let input = CreateThreadInput {
        thread: ThreadInput { name: "hello".to_string(), forum_id: forum.id.0.clone() },
    };
    let thread = MutationRoot.new_thread(Some(UserId("u".to_string())), input).unwrap();
    assert!(is_uuid_v4(&thread.id.0));
    assert_eq!(thread.forum.0, forum.id.0);
    assert_eq!(thread.name.0, "hello");
    assert_ne!(thread.id.0, forum.id.0);

    let input = CreateReplyInput {
        reply: ReplyInput { text: "hi".to_string(), thread_id: thread.id.0.clone() },
    };
    let reply = MutationRoot.new_reply(Some(UserId("v".to_string())), input).unwrap();
    assert!(is_uuid_v4(&reply.id.0));
    assert_eq!(reply.created_by.0, "v");
    assert_eq!(reply.thread.0, thread.id.0);
    assert_eq!(reply.text.0, "hi");

    let user = MutationRoot.new_user(CreateUserInput { username: "alice".to_string() });
    assert!(is_uuid_v4(&user.id.0));
    assert_eq!(user.username.0, "alice");
}

#[test]
fn stored_answers_only_inserted_records() {
    assert_eq!(MutationRoot.stored(5, true), Some(5));
    assert_eq!(MutationRoot.stored(5, false), None);
}

#[test]
fn records_hold_what_they_are_given() {
    let forum = MutationRoot.forum_record(
        "f-1".to_string(),
        Created(7),
        UserId("u-1".to_string()),
        CreateForumInput { forum: ForumInput { name: "General".to_string() } },
    );
    assert_eq!(forum.id.0, "f-1");
    assert_eq!(forum.created.0, 7);
    assert_eq!(forum.created_by.0, "u-1");
    assert_eq!(forum.name.0, "General");

    let reply = MutationRoot.reply_record(
        "r-1".to_string(),
        Created(-3),
        UserId("u-2".to_string()),
        CreateReplyInput {
            reply: ReplyInput { text: "hello".to_string(), thread_id: "t-9".to_string() },
        },
    );
    assert_eq!(reply.id.0, "r-1");
    assert_eq!(reply.created.0, -3);
    assert_eq!(reply.created_by.0, "u-2");
    assert_eq!(reply.thread.0, "t-9");
    assert_eq!(reply.text.0, "hello");

    let thread = MutationRoot.thread_record(
        "t-1".to_string(),
        Created(0),
        UserId("u-3".to_string()),
        CreateThreadInput {
            thread: ThreadInput { name: "Rust".to_string(), forum_id: "f-2".to_string() },
        },
    );
    assert_eq!(thread.id.0, "t-1");
    assert_eq!(thread.created.0, 0);
    assert_eq!(thread.created_by.0, "u-3");
    assert_eq!(thread.forum.0, "f-2");
    assert_eq!(thread.name.0, "Rust");

    let user = MutationRoot.user_record(
        "u-4".to_string(),
        CreateUserInput { username: "bob".to_string() },
    );
    assert_eq!(user.id.0, "u-4");
    assert_eq!(user.username.0, "bob");
}

#[test]
fn the_user_header_is_read_where_it_is_visible_ascii() {
    let user = |bytes: Option<&[u8]>| user_from_header(bytes).map(|UserId(id)| id);
    assert_eq!(user(Some(b"user-42")), Some("user-42".to_string()));
    assert_eq!(user(Some(b"\ta b~")), Some("\ta b~".to_string()));
    assert_eq!(user(Some(b"")), Some(String::new()));
    assert_eq!(user(Some(b"bad\x7f")), None);
    assert_eq!(user(Some(b"caf\xc3\xa9")), None);
    assert_eq!(user(Some(b"line\nbreak")), None);
    assert_eq!(user(None), None);
}
