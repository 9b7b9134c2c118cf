use rust_graphql_kata_001_web::cursor::{decode_cursor, encode_cursor};
use rust_graphql_kata_001_web::pagination::{
    build_connections, page_request, Identity, PageQuery, StoreArguments, DEFAULT_BEFORE,
    DEFAULT_PAGE_SIZE,
};

fn rows(ids: &[usize]) -> Vec<Identity<usize, String>> {
    ids.iter()
        .map(|&id| Identity { id, value: format!("row {}", id) })
        .collect()
}

fn nodes<T: Clone>(connection: &rust_graphql_kata_001_web::pagination::Connection<T>) -> Vec<T> {
    connection.edges.iter().map(|edge| edge.node.clone()).collect()
}

#[test]
fn first_page_keeps_the_oldest_rows_and_sees_a_next_page() {
    let connection = build_connections(rows(&[1, 2, 3, 4]), Some(3), None);
    assert_eq!(nodes(&connection), vec!["row 1", "row 2", "row 3"]);
    assert!(!connection.has_previous_page);
    assert!(connection.has_next_page);
    let cursors: Vec<Option<usize>> =
        connection.edges.iter().map(|edge| decode_cursor(&edge.cursor)).collect();
    assert_eq!(cursors, vec![Some(1), Some(2), Some(3)]);
    assert_eq!(connection.edges[0].cursor, encode_cursor(1));
}

#[test]
fn first_page_without_more_rows_has_no_next_page() {
    let connection = build_connections(rows(&[5, 8]), Some(3), None);
    assert_eq!(nodes(&connection), vec!["row 5", "row 8"]);
    assert!(!connection.has_previous_page);
    assert!(!connection.has_next_page);
}

#[test]
fn last_page_turns_the_newest_rows_around() {
    let connection = build_connections(rows(&[9, 7, 4, 2]), None, Some(3));
    assert_eq!(nodes(&connection), vec!["row 4", "row 7", "row 9"]);
    assert!(connection.has_previous_page);
    assert!(!connection.has_next_page);
    assert_eq!(decode_cursor(&connection.edges[0].cursor), Some(4));
}

#[test]
fn last_page_is_the_first_page_reversed() {
    let first = build_connections(rows(&[9, 7, 4, 2]), Some(2), None);
    let last = build_connections(rows(&[9, 7, 4, 2]), None, Some(2));
    let mut reversed = nodes(&first);
    reversed.reverse();
    assert_eq!(nodes(&last), reversed);
}

#[test]
fn empty_results_give_an_empty_page() {
    let connection = build_connections(rows(&[]), Some(10), None);
    assert!(connection.edges.is_empty());
    assert!(!connection.has_next_page);
    let connection = build_connections(rows(&[]), None, Some(0));
    assert!(connection.edges.is_empty());
    assert!(!connection.has_previous_page);
}

#[test]
fn zero_sized_page_only_tells_whether_rows_exist() {
    let connection = build_connections(rows(&[1]), Some(0), None);
    assert!(connection.edges.is_empty());
    assert!(connection.has_next_page);
}

#[test]
fn default_request_asks_for_eleven_rows_from_the_start() {
    let request = page_request(None, None, None, None);
    assert_eq!(request.first, Some(DEFAULT_PAGE_SIZE));
    assert_eq!(request.last, None);
    assert_eq!(request.query, PageQuery::Oldest { after: 0, limit: 11 });
}

#[test]
fn first_request_starts_after_the_cursor() {
    let request = page_request(Some(encode_cursor(17)), None, Some(5), None);
    assert_eq!(request.first, Some(5));
    assert_eq!(request.query, PageQuery::Oldest { after: 17, limit: 6 });
}

#[test]
fn last_request_ends_before_the_cursor() {
    let request = page_request(None, Some(encode_cursor(30)), None, Some(2));
    assert_eq!(request.first, None);
    assert_eq!(request.last, Some(2));
    assert_eq!(request.query, PageQuery::Newest { before: 30, limit: 3 });
}

#[test]
fn unreadable_cursors_fall_back_to_the_ends() {
    let request = page_request(Some("not a cursor".to_string()), None, Some(1), None);
    assert_eq!(request.query, PageQuery::Oldest { after: 0, limit: 2 });
    let request = page_request(None, Some("###".to_string()), None, Some(1));
    assert_eq!(request.query, PageQuery::Newest { before: DEFAULT_BEFORE, limit: 2 });
    assert_eq!(DEFAULT_BEFORE, u32::MAX as usize);
}

#[test]
fn store_arguments_follow_the_direction() {
    assert_eq!(
        PageQuery::Oldest { after: 3, limit: 11 }.store_arguments(),
        StoreArguments { bound: 3, limit: 11, ascending: true }
    );
    assert_eq!(
        PageQuery::Newest { before: DEFAULT_BEFORE, limit: 4 }.store_arguments(),
        StoreArguments { bound: 4294967295, limit: 4, ascending: false }
    );
}

#[test]
fn rows_keep_the_store_position() {
    let row = Identity::at(42, "forum");
    assert_eq!(row.id, 42);
    assert_eq!(row.value, "forum");
}

fn store_oldest(all: &[usize], after: usize, limit: usize) -> Vec<Identity<usize, String>> {
    let ids: Vec<usize> = all.iter().copied().filter(|&id| id > after).take(limit).collect();
    rows(&ids)
}

#[test]
fn paging_forward_goes_on_where_the_last_page_stopped() {
    let all = [2, 3, 5, 7, 11, 13, 17];
    let first = page_request(None, None, Some(3), None);
    let (after, limit) = match first.query {
        PageQuery::Oldest { after, limit } => (after, limit),
        PageQuery::Newest { .. } => panic!("expected an oldest-first query"),
    };
    let page1 = build_connections(store_oldest(&all, after, limit), first.first, first.last);
    assert!(page1.has_next_page);
    let cursor = page1.edges.last().unwrap().cursor.clone();
    let second = page_request(Some(cursor), None, Some(3), None);
    let (after, limit) = match second.query {
        PageQuery::Oldest { after, limit } => (after, limit),
        PageQuery::Newest { .. } => panic!("expected an oldest-first query"),
    };
    assert_eq!(after, 5);
    let page2 = build_connections(store_oldest(&all, after, limit), second.first, second.last);
    let mut both = nodes(&page1);
    both.extend(nodes(&page2));
    assert_eq!(both, vec!["row 2", "row 3", "row 5", "row 7", "row 11", "row 13"]);
    assert!(page2.has_next_page);
}

#[test]
fn the_store_direction_follows_the_query() {
    let oldest = PageQuery::Oldest { after: 3, limit: 11 }.store_arguments();
    assert_eq!(oldest.direction(), (">", "ASC"));
    let newest = PageQuery::Newest { before: 9, limit: 4 }.store_arguments();
    assert_eq!(newest.direction(), ("<", "DESC"));
}
