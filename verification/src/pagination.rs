//! Cursor-based pages of rows, in the shape of a Relay connection.
//!
//! A page is asked for with `first` (the oldest rows after a cursor) or with
//! `last` (the newest rows before a cursor). The store is asked for one row
//! more than the page holds, so that the page can tell whether more rows
//! exist beyond it.
use crate::cursor::{cursor_position, cursor_text, decode_cursor, encode_cursor};
use vstd::prelude::*;

verus! {

/// A stored value together with its position in the store.
pub struct Identity<I, T> {
    pub id: I,
    pub value: T,
}

/// One entry of a page: the value and the cursor of its position.
pub struct Edge<T> {
    pub cursor: String,
    pub node: T,
}

/// A page of values with the Relay page information.
pub struct Connection<T> {
    pub has_previous_page: bool,
    pub has_next_page: bool,
    pub edges: Vec<Edge<T>>,
}

/// The page size when neither `first` nor `last` is given.
pub const DEFAULT_PAGE_SIZE: usize = 10;

/// The position a `before` cursor stands for when it is absent or unreadable
/// (`u32::MAX`).
pub const DEFAULT_BEFORE: usize = 4294967295;

/// The smaller of `a` and `b`.
pub open spec fn min_nat(a: nat, b: nat) -> nat {
    if a <= b {
        a
    } else {
        b
    }
}

/// The rows a page shows, in the order it shows them: with `first`, the first
/// `first` rows as the store returned them (oldest first); with `last`, the
/// first `last` rows (newest first) turned around, so oldest first again.
pub open spec fn page_rows<T>(
    results: Seq<Identity<usize, T>>,
    first: Option<usize>,
    last: Option<usize>,
) -> Seq<Identity<usize, T>> {
    match (first, last) {
        (Some(n), None) => results.take(min_nat(n as nat, results.len()) as int),
        (None, Some(n)) => results.take(min_nat(n as nat, results.len()) as int).reverse(),
        _ => Seq::empty(),
    }
}

/// The edges show exactly `rows`, each value under the cursor of its position.
pub open spec fn edges_show<T>(edges: Seq<Edge<T>>, rows: Seq<Identity<usize, T>>) -> bool {
    &&& edges.len() == rows.len()
    &&& forall|i: int|
        0 <= i < edges.len() ==> {
            &&& (#[trigger] edges[i]).cursor@ == cursor_text(rows[i].id)
            &&& edges[i].node == rows[i].value
        }
}

/// Turns a vector around.
fn reverse_vec<T>(v: Vec<T>) -> (r: Vec<T>)
    ensures
        r@ == v@.reverse(),
{
    let mut rest = v;
    let mut out: Vec<T> = Vec::new();
    let ghost whole = v@;
    while rest.len() > 0
        invariant
            rest@ == whole.take(rest@.len() as int),
            out@ == whole.skip(rest@.len() as int).reverse(),
            rest@.len() <= whole.len(),
        decreases rest@.len(),
    {
        let ghost k = rest@.len();
        match rest.pop() {
            Some(item) => {
                out.push(item);
                assert(out@ =~= whole.skip(k - 1).reverse());
                assert(rest@ =~= whole.take(k - 1));
            },
            None => {},
        }
    }
    assert(out@ =~= whole.reverse());
    out
}

/// The edges of `rows` taken from the back: they show `rows` turned around.
fn edges_from_back<T>(rows: Vec<Identity<usize, T>>) -> (edges: Vec<Edge<T>>)
    ensures
        edges_show(edges@, rows@.reverse()),
{
    let mut rest = rows;
    let mut edges: Vec<Edge<T>> = Vec::new();
    let ghost whole = rows@;
    while rest.len() > 0
        invariant
            rest@ == whole.take(rest@.len() as int),
            rest@.len() <= whole.len(),
            edges_show(edges@, whole.skip(rest@.len() as int).reverse()),
        decreases rest@.len(),
    {
        let ghost k = rest@.len();
        match rest.pop() {
            Some(item) => {
                let cursor = encode_cursor(item.id);
                edges.push(Edge { cursor, node: item.value });
                assert(whole.skip(k - 1).reverse() =~= whole.skip(k as int).reverse().push(
                    whole[k - 1],
                ));
                assert(rest@ =~= whole.take(k - 1));
            },
            None => {},
        }
    }
    assert(whole.skip(0) =~= whole);
    edges
}

/// Builds the page for the rows the store returned.
///
/// With `first`, the rows came oldest first; the page keeps the first `first`
/// of them and has a next page exactly when more rows came. With `last`, the
/// rows came newest first; the page keeps the first `last` of them, turned
/// around to oldest first, and has a previous page exactly when more rows came.
pub fn build_connections<T>(
    results: Vec<Identity<usize, T>>,
    first: Option<usize>,
    last: Option<usize>,
) -> (connection: Connection<T>)
    requires
        first is Some != last is Some,
    ensures
        edges_show(connection.edges@, page_rows(results@, first, last)),
        connection.has_previous_page == (last matches Some(n) && results@.len() > n),
        connection.has_next_page == (first matches Some(n) && results@.len() > n),
{
    let mut rows = results;
    let total = rows.len();
    match first {
        Some(n) => {
            rows.truncate(n);
            assert(rows@ =~= results@.take(min_nat(n as nat, total as nat) as int));
            let reversed = reverse_vec(rows);
            let edges = edges_from_back(reversed);
            assert(reversed@.reverse() =~= rows@);
            Connection { has_previous_page: false, has_next_page: total > n, edges }
        },
        None => {
            let n = match last {
                Some(n) => n,
                None => 0,
            };
            rows.truncate(n);
            assert(rows@ =~= results@.take(min_nat(n as nat, total as nat) as int));
            let edges = edges_from_back(rows);
            Connection { has_previous_page: total > n, has_next_page: false, edges }
        },
    }
}

/// How the store is asked for the rows of a page.
#[derive(Clone, Copy, Debug, PartialEq, Eq, Structural)]
pub enum PageQuery {
    /// The rows after position `after`, oldest first, at most `limit` of them.
    Oldest { after: usize, limit: usize },
    /// The rows before position `before`, newest first, at most `limit` of them.
    Newest { before: usize, limit: usize },
}

/// A page asked for: how to query the store, and the `first` / `last` that
/// `build_connections` then takes.
pub struct PageRequest {
    pub query: PageQuery,
    pub first: Option<usize>,
    pub last: Option<usize>,
}

/// The position a cursor argument stands for, or `default` where it is absent
/// or does not decode.
pub open spec fn position_or(cursor: Option<String>, default: usize) -> usize {
    match cursor {
        Some(text) => match cursor_position(text@) {
            Some(position) => position,
            None => default,
        },
        None => default,
    }
}

fn decode_position_or(cursor: Option<String>, default: usize) -> (position: usize)
    requires
        cursor matches Some(text) ==> text@.len() <= usize::MAX / 8,
    ensures
        position == position_or(cursor, default),
        forall|n: usize|
            cursor is Some && cursor->0@ == #[trigger] cursor_text(n) ==> position == n,
{
    match cursor {
        Some(text) => match decode_cursor(text.as_str()) {
            Some(position) => position,
            None => default,
        },
        None => default,
    }
}

/// Turns the connection arguments of a resolver into the query for the store.
///
/// Absent or unreadable cursors stand for the start (`after`) and for
/// `u32::MAX` (`before`); with neither `first` nor `last` the page holds the
/// first ten rows. The store is asked for one row more than the page holds.
/// A page asked for after (before) the cursor of a row starts right after
/// (ends right before) that row.
pub fn page_request(
    after: Option<String>,
    before: Option<String>,
    first: Option<usize>,
    last: Option<usize>,
) -> (request: PageRequest)
    requires
        !(first is Some && last is Some),
        first matches Some(n) ==> n < usize::MAX,
        last matches Some(n) ==> n < usize::MAX,
        after matches Some(text) ==> text@.len() <= usize::MAX / 8,
        before matches Some(text) ==> text@.len() <= usize::MAX / 8,
    ensures
        request.first == (if first is None && last is None {
            Some(DEFAULT_PAGE_SIZE)
        } else {
            first
        }),
        request.last == last,
        request.first is Some != request.last is Some,
        (match request.query {
            PageQuery::Oldest { after: position, limit } => request.first matches Some(n) && limit
                == n + 1 && position == position_or(after, 0),
            PageQuery::Newest { before: position, limit } => request.last matches Some(n) && limit
                == n + 1 && position == position_or(before, DEFAULT_BEFORE),
        }),
        forall|n: usize|
            request.query is Oldest && after is Some && after->0@ == #[trigger] cursor_text(n)
                ==> request.query->after == n,
        forall|n: usize|
            request.query is Newest && before is Some && before->0@ == #[trigger] cursor_text(n)
                ==> request.query->before == n,
{
    let after = decode_position_or(after, 0);
    let before = decode_position_or(before, DEFAULT_BEFORE);
    let first = if first.is_none() && last.is_none() {
        Some(DEFAULT_PAGE_SIZE)
    } else {
        first
    };
    match first {
        Some(n) => PageRequest { query: PageQuery::Oldest { after, limit: n + 1 }, first, last },
        None => {
            let n = match last {
                Some(n) => n,
                None => 0,
            };
            PageRequest { query: PageQuery::Newest { before, limit: n + 1 }, first, last }
        },
    }
}

/// The positions of `rows` strictly increase.
pub open spec fn ascending<T>(rows: Seq<Identity<usize, T>>) -> bool {
    forall|i: int, j: int| 0 <= i < j < rows.len() ==> rows[i].id < rows[j].id
}

/// The positions of `rows` strictly decrease.
pub open spec fn descending<T>(rows: Seq<Identity<usize, T>>) -> bool {
    forall|i: int, j: int| 0 <= i < j < rows.len() ==> rows[i].id > rows[j].id
}

/// Law: a `last: n` page shows the rows a `first: n` page over the same
/// results would show, in the opposite order.
pub proof fn lemma_last_page_is_first_page_reversed<T>(results: Seq<Identity<usize, T>>, n: usize)
    ensures
        page_rows(results, None, Some(n)) == page_rows(results, Some(n), None).reverse(),
{
}

/// Law: a page never shows more rows than it was asked for, nor more than the
/// store returned.
pub proof fn lemma_page_size_bounded<T>(
    results: Seq<Identity<usize, T>>,
    first: Option<usize>,
    last: Option<usize>,
)
    requires
        first is Some != last is Some,
    ensures
        page_rows(results, first, last).len() <= results.len(),
        first matches Some(n) ==> page_rows(results, first, last).len() == min_nat(
            n as nat,
            results.len(),
        ),
        last matches Some(n) ==> page_rows(results, first, last).len() == min_nat(
            n as nat,
            results.len(),
        ),
{
}

/// Law: a page lists its rows oldest first either way, when the store returns
/// them in its order: ascending for a `first` page, descending for a `last` page.
pub proof fn lemma_page_rows_ascending<T>(
    results: Seq<Identity<usize, T>>,
    first: Option<usize>,
    last: Option<usize>,
)
    requires
        first is Some != last is Some,
        first is Some ==> ascending(results),
        last is Some ==> descending(results),
    ensures
        ascending(page_rows(results, first, last)),
{
    let rows = page_rows(results, first, last);
    match first {
        Some(n) => {
            let k = min_nat(n as nat, results.len()) as int;
            assert forall|i: int, j: int| 0 <= i < j < rows.len() implies rows[i].id
                < rows[j].id by {
                assert(rows[i] == results[i]);
                assert(rows[j] == results[j]);
            }
        },
        None => {
            let n = last->0;
            let k = min_nat(n as nat, results.len()) as int;
            let kept = results.take(k);
            assert forall|i: int, j: int| 0 <= i < j < rows.len() implies rows[i].id
                < rows[j].id by {
                assert(rows[i] == kept[k - 1 - i]);
                assert(rows[j] == kept[k - 1 - j]);
                assert(kept[k - 1 - i] == results[k - 1 - i]);
                assert(kept[k - 1 - j] == results[k - 1 - j]);
            }
        },
    }
}

/// The arguments a page query binds in the store: the position bound, the
/// number of rows, and whether rows come oldest first (`>` the bound,
/// ascending) or newest first (`<` the bound, descending). Positions and
/// sizes are bound as `i64`, cast with `as`.
#[derive(Clone, Copy, Debug, PartialEq, Eq, Structural)]
pub struct StoreArguments {
    pub bound: i64,
    pub limit: i64,
    pub ascending: bool,
}

impl StoreArguments {
    /// How the store compares positions with the bound and orders the rows:
    /// `>` and `ASC` for oldest first, `<` and `DESC` for newest first.
    pub fn direction(&self) -> (direction: (&'static str, &'static str))
        ensures
            self.ascending ==> direction.0@ == ">"@ && direction.1@ == "ASC"@,
            !self.ascending ==> direction.0@ == "<"@ && direction.1@ == "DESC"@,
    {
        if self.ascending {
            (">", "ASC")
        } else {
            ("<", "DESC")
        }
    }
}

impl PageQuery {
    /// The arguments the store is queried with.
    pub fn store_arguments(&self) -> (arguments: StoreArguments)
        ensures
            (match *self {
                PageQuery::Oldest { after, limit } => arguments == StoreArguments {
                    bound: after as i64,
                    limit: limit as i64,
                    ascending: true,
                },
                PageQuery::Newest { before, limit } => arguments == StoreArguments {
                    bound: before as i64,
                    limit: limit as i64,
                    ascending: false,
                },
            }),
    {
        match *self {
            PageQuery::Oldest { after, limit } => StoreArguments {
                bound: after as i64,
                limit: limit as i64,
                ascending: true,
            },
            PageQuery::Newest { before, limit } => StoreArguments {
                bound: before as i64,
                limit: limit as i64,
                ascending: false,
            },
        }
    }
}

impl<T> Identity<usize, T> {
    /// A stored value at the position the store reports, cast to `usize` with `as`.
    pub fn at(id: i64, value: T) -> (row: Identity<usize, T>)
        ensures
            row.id == id as usize,
            row.value == value,
    {
        Identity { id: id as usize, value }
    }
}


/// How many leading rows lie at or before position `after`.
pub open spec fn skipped_count<T>(rows: Seq<Identity<usize, T>>, after: usize) -> nat
    decreases rows.len(),
{
    if rows.len() == 0 || rows[0].id > after {
        0
    } else {
        1 + skipped_count(rows.drop_first(), after)
    }
}

/// The rows after position `after`, of rows the store keeps in ascending
/// order of position: those past the leading ones at or before it.
pub open spec fn rows_after<T>(rows: Seq<Identity<usize, T>>, after: usize) -> Seq<
    Identity<usize, T>,
> {
    rows.skip(skipped_count(rows, after) as int)
}

/// What the store answers an `Oldest { after, limit }` query with, when it
/// keeps `rows` in ascending order of position: the first `limit` rows after
/// `after`.
pub open spec fn oldest_answer<T>(rows: Seq<Identity<usize, T>>, after: usize, limit: nat) -> Seq<
    Identity<usize, T>,
> {
    let later = rows_after(rows, after);
    later.take(min_nat(limit, later.len()) as int)
}

proof fn lemma_skipped_count_bound<T>(rows: Seq<Identity<usize, T>>, after: usize)
    ensures
        skipped_count(rows, after) <= rows.len(),
    decreases rows.len(),
{
    if rows.len() > 0 && rows[0].id <= after {
        lemma_skipped_count_bound(rows.drop_first(), after);
    }
}

/// In ascending rows, the rows at or before the position of row `m` are the
/// first `m + 1`.
proof fn lemma_skipped_through<T>(rows: Seq<Identity<usize, T>>, m: int)
    requires
        ascending(rows),
        0 <= m < rows.len(),
    ensures
        skipped_count(rows, rows[m].id) == m + 1,
    decreases m,
{
    let rest = rows.drop_first();
    assert(ascending(rest)) by {
        assert forall|i: int, j: int| 0 <= i < j < rest.len() implies rest[i].id < rest[j].id by {
            assert(rest[i] == rows[i + 1]);
            assert(rest[j] == rows[j + 1]);
        }
    }
    if m == 0 {
        if rest.len() > 0 {
            assert(rest[0] == rows[1]);
            assert(rows[0].id < rows[1].id);
            assert(skipped_count(rest, rows[0].id) == 0);
        }
        assert(skipped_count(rows, rows[0].id) == 1 + skipped_count(rest, rows[0].id));
    } else {
        assert(rest[m - 1] == rows[m]);
        assert(rows[0].id < rows[m].id);
        lemma_skipped_through(rest, m - 1);
        assert(skipped_count(rows, rows[m].id) == 1 + skipped_count(rest, rows[m].id));
    }
}

/// Law: paging forward goes on where the last page stopped. Where a
/// `first: n` page (n > 0) over the rows after a position has a next page,
/// the `first: n` page after the position of its last row follows it: the
/// two pages together are the first `2n` rows after the position (or all of
/// them where fewer remain), and every row of the second comes after every
/// row of the first.
pub proof fn lemma_next_page_continues<T>(rows: Seq<Identity<usize, T>>, after: usize, n: usize)
    requires
        ascending(rows),
        0 < n < usize::MAX,
        oldest_answer(rows, after, (n + 1) as nat).len() > n,
    ensures
        ({
            let page1 = page_rows(oldest_answer(rows, after, (n + 1) as nat), Some(n), None);
            let page2 = page_rows(
                oldest_answer(rows, page1.last().id, (n + 1) as nat),
                Some(n),
                None,
            );
            let later = rows_after(rows, after);
            &&& page1 + page2 == later.take(min_nat((2 * n) as nat, later.len()) as int)
            &&& forall|i: int, j: int|
                0 <= i < page1.len() && 0 <= j < page2.len() ==> page1[i].id < page2[j].id
        }),
{
    let s = skipped_count(rows, after) as int;
    lemma_skipped_count_bound(rows, after);
    let later = rows_after(rows, after);
    let answer1 = oldest_answer(rows, after, (n + 1) as nat);
    let page1 = page_rows(answer1, Some(n), None);
    assert(later.len() > n);
    assert(page1 =~= later.take(n as int));
    let last = page1.last().id;
    assert(last == rows[s + n - 1].id);
    lemma_skipped_through(rows, s + n - 1);
    let later2 = rows_after(rows, last);
    assert(later2 =~= later.skip(n as int));
    let answer2 = oldest_answer(rows, last, (n + 1) as nat);
    let page2 = page_rows(answer2, Some(n), None);
    let m = min_nat(n as nat, (later.len() - n) as nat) as int;
    assert(page2 =~= later.skip(n as int).take(m));
    assert(page1 + page2 =~= later.take(min_nat((2 * n) as nat, later.len()) as int));
    assert forall|i: int, j: int| 0 <= i < page1.len() && 0 <= j < page2.len() implies page1[i].id
        < page2[j].id by {
        assert(page1[i] == rows[s + i]);
        assert(page2[j] == rows[s + n + j]);
    }
}

} // verus!
