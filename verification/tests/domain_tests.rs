use rust_graphql_kata_001_web::domain::{Created, MAX_RENDERED_NANOS, MIN_RENDERED_NANOS};

#[test]
fn created_renders_iso8601_with_nanoseconds() {
    assert_eq!(Created(0).is8601(), "1970-01-01T00:00:00.000000000Z");
    assert_eq!(
        Created(1_546_300_800_000_000_000).is8601(),
        "2019-01-01T00:00:00.000000000Z"
    );
    assert_eq!(
        Created(1_546_300_800_123_456_789).is8601(),
        "2019-01-01T00:00:00.123456789Z"
    );
    assert_eq!(Created(-1).is8601(), "1969-12-31T23:59:59.999999999Z");
}

#[test]
fn created_renders_at_the_ends_of_its_range() {
    assert_eq!(
        Created(MAX_RENDERED_NANOS).is8601(),
        "+100000-12-31T23:59:59.999999999Z"
    );
    assert_eq!(
        Created(MIN_RENDERED_NANOS).is8601(),
        "-100000-01-01T00:00:00.000000000Z"
    );
}
