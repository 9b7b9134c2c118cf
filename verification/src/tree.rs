//! The settings tree: nested tables, lists and texts, and how writing a text
//! at a path reshapes it.
//!
//! A path is a name followed by names and list indices. Writing walks the
//! path from the root: a name step makes the node a table (an empty one if it
//! was not a table) and goes to its entry (a new nil one if absent); an index
//! step makes the node a list (an empty one if it was not a list), counts a
//! negative index from the end, grows the list with nils up to the index, and
//! goes to that item. At the end of the path the node becomes the text.
//! Two writes whose paths go through the same names and then part at two
//! different names leave the same tree in either order.
use crate::settings::same_chars;
use vstd::prelude::*;

verus! {

/// A node of the settings tree, as a mathematical value: a table maps names
/// to nodes.
pub enum Node {
    Nil,
    Text(Seq<char>),
    Table(Map<Seq<char>, Node>),
    List(Seq<Node>),
}

/// A node of the settings tree. A table holds its entries in a list; where
/// a name occurs twice, the later entry counts.
pub enum SettingNode {
    Nil,
    Text(String),
    Table(Vec<(Vec<char>, SettingNode)>),
    List(Vec<SettingNode>),
}

/// The names of a table's entries, in order.
pub open spec fn entry_names(entries: Seq<(Vec<char>, SettingNode)>) -> Seq<Seq<char>> {
    Seq::new(entries.len(), |i: int| entries[i].0@)
}

/// The position of the last name equal to `key`, or -1.
pub open spec fn key_index(names: Seq<Seq<char>>, key: Seq<char>) -> int
    decreases names.len(),
{
    if names.len() == 0 {
        -1
    } else if names.last() == key {
        names.len() - 1
    } else {
        key_index(names.drop_last(), key)
    }
}

/// The value a node stands for.
pub open spec fn node_view(n: SettingNode) -> Node
    decreases n,
{
    match n {
        SettingNode::Nil => Node::Nil,
        SettingNode::Text(s) => Node::Text(s@),
        SettingNode::Table(entries) => Node::Table(
            Map::new(
                |k: Seq<char>| key_index(entry_names(entries@), k) >= 0,
                |k: Seq<char>|
                    {
                        let i = key_index(entry_names(entries@), k);
                        if 0 <= i < entries@.len() {
                            node_view(entries@[i].1)
                        } else {
                            Node::Nil
                        }
                    },
            ),
        ),
        SettingNode::List(items) => Node::List(
            Seq::new(
                items@.len(),
                |i: int|
                    if 0 <= i < items@.len() {
                        node_view(items@[i])
                    } else {
                        Node::Nil
                    },
            ),
        ),
    }
}

/// A step of a path, as a mathematical value.
pub enum Segment {
    Name(Seq<char>),
    Index(int),
}

/// A step of a path: the entry of a table with this name, or the item of a
/// list at this index (counted from the end when negative).
pub enum PathSegment {
    Name(Vec<char>),
    Index(isize),
}

/// The value a step stands for.
pub open spec fn segment_view(s: PathSegment) -> Segment {
    match s {
        PathSegment::Name(name) => Segment::Name(name@),
        PathSegment::Index(index) => Segment::Index(index as int),
    }
}

/// The value a path stands for.
pub open spec fn path_view(path: Seq<PathSegment>) -> Seq<Segment> {
    Seq::new(path.len(), |i: int| segment_view(path[i]))
}

/// The position `key_index` gives holds the name; where it gives none, no
/// position does.
pub proof fn lemma_key_index(names: Seq<Seq<char>>, key: Seq<char>)
    ensures
        -1 <= key_index(names, key) < names.len(),
        key_index(names, key) >= 0 ==> names[key_index(names, key)] == key,
        key_index(names, key) < 0 ==> forall|i: int| 0 <= i < names.len() ==> names[i] != key,
    decreases names.len(),
{
    if names.len() > 0 {
        lemma_key_index(names.drop_last(), key);
        if names.last() != key && key_index(names, key) < 0 {
            assert forall|i: int| 0 <= i < names.len() implies names[i] != key by {
                if i < names.len() - 1 {
                    assert(names.drop_last()[i] == names[i]);
                }
            }
        }
    }
}

/// Renaming the entry at a position to the name it has keeps where every
/// name is found; adding an entry at the end makes it the one found under
/// its name.
pub proof fn lemma_key_index_change(names: Seq<Seq<char>>, k: int, name: Seq<char>)
    ensures
        0 <= k < names.len() ==> key_index(names.update(k, names[k]), name) == key_index(
            names,
            name,
        ),
        key_index(names.push(name), name) == names.len(),
        forall|other: Seq<char>|
            other != name ==> #[trigger] key_index(names.push(name), other) == key_index(
                names,
                other,
            ),
{
    if 0 <= k < names.len() {
        assert(names.update(k, names[k]) =~= names);
    }
    assert forall|other: Seq<char>| other != name implies #[trigger] key_index(
        names.push(name),
        other,
    ) == key_index(names, other) by {
        assert(names.push(name).drop_last() =~= names);
    }
}

/// The entry named `key`, if the table has one.
pub open spec fn entry_node(entries: Map<Seq<char>, Node>, key: Seq<char>) -> Option<Node> {
    if entries.dom().contains(key) {
        Some(entries[key])
    } else {
        None
    }
}

/// The entries of a table; a node of another kind has none.
pub open spec fn table_entries(n: Node) -> Map<Seq<char>, Node> {
    match n {
        Node::Table(entries) => entries,
        _ => Map::empty(),
    }
}

/// The items of a list; a node of another kind has none.
pub open spec fn list_items(n: Node) -> Seq<Node> {
    match n {
        Node::List(items) => items,
        _ => Seq::empty(),
    }
}

/// The position an index names in a list of `len` items.
pub open spec fn resolved_index(index: int, len: nat) -> int {
    if index >= 0 {
        index
    } else {
        len + index
    }
}

/// `items` grown with nils to hold `size` items.
pub open spec fn padded(items: Seq<Node>, size: int) -> Seq<Node> {
    if size > items.len() {
        items + Seq::new((size - items.len()) as nat, |i: int| Node::Nil)
    } else {
        items
    }
}

/// The node after writing `value` at `path` below it.
pub open spec fn set_at(node: Node, path: Seq<Segment>, value: Seq<char>) -> Node
    decreases path.len(),
{
    if path.len() == 0 {
        Node::Text(value)
    } else {
        let rest = path.drop_first();
        match path[0] {
            Segment::Name(key) => {
                let entries = table_entries(node);
                let child = match entry_node(entries, key) {
                    Some(c) => c,
                    None => Node::Nil,
                };
                Node::Table(entries.insert(key, set_at(child, rest, value)))
            },
            Segment::Index(index) => {
                let items = list_items(node);
                let at = resolved_index(index, items.len());
                let grown = padded(items, at + 1);
                Node::List(grown.update(at, set_at(grown[at], rest, value)))
            },
        }
    }
}

/// Whether writing at `path` below `node` counts no negative index past the
/// front of its list (where the `config` crate's subtraction underflows).
pub open spec fn path_fits(node: Node, path: Seq<Segment>) -> bool
    decreases path.len(),
{
    if path.len() == 0 {
        true
    } else {
        let rest = path.drop_first();
        match path[0] {
            Segment::Name(key) => {
                let child = match entry_node(table_entries(node), key) {
                    Some(c) => c,
                    None => Node::Nil,
                };
                path_fits(child, rest)
            },
            Segment::Index(index) => {
                let items = list_items(node);
                let at = resolved_index(index, items.len());
                at >= 0 && path_fits(padded(items, at + 1)[at], rest)
            },
        }
    }
}

/// The node found at `path` below `node`, as the `config` crate's `get`
/// finds it: through tables by name and through lists by index.
pub open spec fn node_at(node: Node, path: Seq<Segment>) -> Option<Node>
    decreases path.len(),
{
    if path.len() == 0 {
        Some(node)
    } else {
        let rest = path.drop_first();
        match (node, path[0]) {
            (Node::Table(entries), Segment::Name(key)) => match entry_node(entries, key) {
                Some(child) => node_at(child, rest),
                None => None,
            },
            (Node::List(items), Segment::Index(index)) => {
                let at = resolved_index(index, items.len());
                if 0 <= at < items.len() {
                    node_at(items[at], rest)
                } else {
                    None
                }
            },
            _ => None,
        }
    }
}

/// The tree after the writes, in order.
pub open spec fn apply_writes(node: Node, writes: Seq<(Seq<Segment>, Seq<char>)>) -> Node
    decreases writes.len(),
{
    if writes.len() == 0 {
        node
    } else {
        set_at(apply_writes(node, writes.drop_last()), writes.last().0, writes.last().1)
    }
}

/// Whether each write fits the tree the writes before it leave.
pub open spec fn writes_fit(node: Node, writes: Seq<(Seq<Segment>, Seq<char>)>) -> bool
    decreases writes.len(),
{
    if writes.len() == 0 {
        true
    } else {
        writes_fit(node, writes.drop_last()) && path_fits(
            apply_writes(node, writes.drop_last()),
            writes.last().0,
        )
    }
}

/// The empty table.
pub open spec fn empty_table() -> Node {
    Node::Table(Map::empty())
}

/// The position of the entry named `key`, if there is one: the last entry
/// with that name.
pub fn find_key(entries: &Vec<(Vec<char>, SettingNode)>, key: &[char]) -> (k: Option<usize>)
    ensures
        k is Some == table_entries(node_view(SettingNode::Table(*entries))).dom().contains(key@),
        k matches Some(i) ==> {
            &&& i as int == key_index(entry_names(entries@), key@)
            &&& i < entries@.len()
            &&& entries@[i as int].0@ == key@
            &&& table_entries(node_view(SettingNode::Table(*entries)))[key@] == node_view(
                entries@[i as int].1,
            )
        },
{
    let ghost names = entry_names(entries@);
    let mut i = entries.len();
    assert(names.take(i as int) =~= names);
    while i > 0
        invariant
            i <= entries@.len(),
            names.len() == entries@.len(),
            names == entry_names(entries@),
            key_index(names, key@) == key_index(names.take(i as int), key@),
        decreases i,
    {
        let ghost prefix = names.take(i as int);
        assert(prefix.drop_last() =~= names.take(i - 1));
        i = i - 1;
        assert(names[i as int] == entries@[i as int].0@);
        if same_chars(entries[i].0.as_slice(), key) {
            proof {
                lemma_key_index(names, key@);
            }
            return Some(i);
        }
    }
    proof {
        lemma_key_index(names, key@);
    }
    None
}

/// The characters of `key`, copied.
pub fn copy_chars(key: &[char]) -> (copy: Vec<char>)
    ensures
        copy@ == key@,
{
    let mut copy: Vec<char> = Vec::new();
    let mut i: usize = 0;
    while i < key.len()
        invariant
            i <= key@.len(),
            copy@ == key@.take(i as int),
        decreases key@.len() - i,
    {
        copy.push(key[i]);
        assert(copy@ =~= key@.take(i + 1));
        i = i + 1;
    }
    assert(key@.take(i as int) =~= key@);
    copy
}

/// Whether writing at the steps of `path` from `i` on fits below `node`.
pub fn fits_node(node: &SettingNode, path: &[PathSegment], i: usize) -> (r: bool)
    requires
        i <= path@.len(),
    ensures
        r == path_fits(node_view(*node), path_view(path@).skip(i as int)),
    decreases path@.len() - i,
{
    let ghost steps = path_view(path@).skip(i as int);
    if i == path.len() {
        return true;
    }
    assert(steps[0] == segment_view(path@[i as int]));
    assert(steps.drop_first() =~= path_view(path@).skip(i + 1));
    let nil = SettingNode::Nil;
    match &path[i] {
        PathSegment::Name(key) => {
            match node {
                SettingNode::Table(entries) => {
                    match find_key(entries, key.as_slice()) {
                        Some(k) => fits_node(&entries[k].1, path, i + 1),
                        None => fits_node(&nil, path, i + 1),
                    }
                },
                _ => {
                    assert(table_entries(node_view(*node)) =~= Map::<Seq<char>, Node>::empty());
                    fits_node(&nil, path, i + 1)
                },
            }
        },
        PathSegment::Index(index) => {
            let empty: Vec<SettingNode> = Vec::new();
            let items = match node {
                SettingNode::List(v) => v,
                _ => &empty,
            };
            assert(list_items(node_view(*node)) =~= list_items(node_view(SettingNode::List(*items))));
            let len = items.len();
            let at: usize = if *index >= 0 {
                *index as usize
            } else {
                let back = 0 - (*index as i128);
                if back > len as i128 {
                    return false;
                }
                len - (back as usize)
            };
            let ghost grown = padded(list_items(node_view(*node)), at + 1);
            if at < len {
                assert(grown[at as int] == node_view(items@[at as int]));
                fits_node(&items[at], path, i + 1)
            } else {
                assert(grown[at as int] == Node::Nil);
                fits_node(&nil, path, i + 1)
            }
        },
    }
}

/// Setting an entry of a table in place, or adding it at the end where the
/// name is new, sets it in the map the table stands for.
pub proof fn lemma_table_view_put(
    old: Vec<(Vec<char>, SettingNode)>,
    new: Vec<(Vec<char>, SettingNode)>,
    key: Seq<char>,
    child: SettingNode,
)
    requires
        ({
            let k = key_index(entry_names(old@), key);
            ||| k >= 0 && new@ == old@.update(k, (old@[k].0, child))
            ||| k < 0 && new@.len() == old@.len() + 1 && new@.drop_last() == old@
                && new@.last().0@ == key && new@.last().1 == child
        }),
    ensures
        table_entries(node_view(SettingNode::Table(new))) =~= table_entries(
            node_view(SettingNode::Table(old)),
        ).insert(key, node_view(child)),
{
    let names = entry_names(old@);
    let k = key_index(names, key);
    lemma_key_index(names, key);
    let m_old = table_entries(node_view(SettingNode::Table(old)));
    let m_new = table_entries(node_view(SettingNode::Table(new)));
    if k >= 0 {
        assert(entry_names(new@) =~= names.update(k, names[k]));
        assert forall|x: Seq<char>| #[trigger] key_index(entry_names(new@), x) == key_index(names, x) by {
            lemma_key_index_change(names, k, x);
        }
        assert forall|x: Seq<char>| #[trigger] m_new.dom().contains(x) == m_old.insert(key, node_view(child)).dom().contains(x) by {}
        assert forall|x: Seq<char>| m_new.dom().contains(x) implies #[trigger] m_new[x] == m_old.insert(key, node_view(child))[x] by {
            if x != key {
                let p = key_index(names, x);
                lemma_key_index(names, x);
                assert(p != k);
            }
        }
    } else {
        assert(entry_names(new@) =~= names.push(key));
        lemma_key_index_change(names, 0, key);
        assert forall|x: Seq<char>| #[trigger] m_new.dom().contains(x) == m_old.insert(key, node_view(child)).dom().contains(x) by {
            if x != key {
                assert(key_index(names.push(key), x) == key_index(names, x));
            }
        }
        assert forall|x: Seq<char>| m_new.dom().contains(x) implies #[trigger] m_new[x] == m_old.insert(key, node_view(child))[x] by {
            if x != key {
                assert(key_index(names.push(key), x) == key_index(names, x));
                lemma_key_index(names, x);
                assert(new@[key_index(names, x)] == old@[key_index(names, x)]);
            }
        }
    }
}

/// Writes `value` at the steps of `path` from `i` on, below `node`.
pub fn set_node(node: SettingNode, path: &[PathSegment], i: usize, value: &str) -> (r: SettingNode)
    requires
        i <= path@.len(),
        path_fits(node_view(node), path_view(path@).skip(i as int)),
    ensures
        node_view(r) == set_at(node_view(node), path_view(path@).skip(i as int), value@),
    decreases path@.len() - i,
{
    let ghost steps = path_view(path@).skip(i as int);
    let ghost nv = node_view(node);
    if i == path.len() {
        return SettingNode::Text(String::from_str(value));
    }
    assert(steps[0] == segment_view(path@[i as int]));
    assert(steps.drop_first() =~= path_view(path@).skip(i + 1));
    match &path[i] {
        PathSegment::Name(key) => {
            let mut entries = match node {
                SettingNode::Table(e) => e,
                _ => Vec::new(),
            };
            let ghost before = table_entries(nv);
            proof {
                lemma_key_index(entry_names(entries@), key@);
            }
            assert(before =~= table_entries(node_view(SettingNode::Table(entries))));
            let ghost old_entries = entries;
            match find_key(&entries, key.as_slice()) {
                Some(k) => {
                    let (name, child) = entries.remove(k);
                    let written = set_node(child, path, i + 1, value);
                    entries.insert(k, (name, written));
                    assert(entries@ =~= old_entries@.update(k as int, (old_entries@[k as int].0, written)));
                    proof {
                        lemma_table_view_put(old_entries, entries, key@, written);
                    }
                },
                None => {
                    let written = set_node(SettingNode::Nil, path, i + 1, value);
                    entries.push((copy_chars(key.as_slice()), written));
                    assert(entries@.drop_last() =~= old_entries@);
                    proof {
                        lemma_table_view_put(old_entries, entries, key@, written);
                    }
                },
            }
            SettingNode::Table(entries)
        },
        PathSegment::Index(index) => {
            let mut items = match node {
                SettingNode::List(v) => v,
                _ => Vec::new(),
            };
            let ghost before = list_items(nv);
            assert(before =~= list_items(node_view(SettingNode::List(items))));
            let len = items.len();
            let at: usize = if *index >= 0 {
                *index as usize
            } else {
                let back = (0 - (*index as i128)) as usize;
                len - back
            };
            assert(at as int == resolved_index(*index as int, before.len()));
            let ghost grown = padded(before, at + 1);
            while items.len() <= at
                invariant
                    grown == padded(before, at + 1),
                    before.len() <= items@.len() <= grown.len(),
                    forall|j: int|
                        0 <= j < items@.len() ==> #[trigger] node_view(items@[j]) == grown[j],
                decreases at + 1 - items@.len(),
            {
                items.push(SettingNode::Nil);
            }
            assert(items@.len() == grown.len());
            assert forall|j: int| 0 <= j < grown.len() implies list_items(
                node_view(SettingNode::List(items)),
            )[j] == grown[j] by {
                assert(node_view(items@[j]) == grown[j]);
            }
            assert(list_items(node_view(SettingNode::List(items))) =~= grown);
            let ghost old_items = items@;
            let child = items.remove(at);
            let written = set_node(child, path, i + 1, value);
            items.insert(at, written);
            assert(items@ == old_items.update(at as int, written));
            assert(list_items(node_view(SettingNode::List(items))) =~= grown.update(
                at as int,
                node_view(written),
            ));
            SettingNode::List(items)
        },
    }
}


/// Law: reading a path right after writing a text there gives the text back.
pub proof fn lemma_read_after_write(node: Node, path: Seq<Segment>, value: Seq<char>)
    requires
        path_fits(node, path),
    ensures
        node_at(set_at(node, path, value), path) == Some(Node::Text(value)),
    decreases path.len(),
{
    if path.len() > 0 {
        let rest = path.drop_first();
        match path[0] {
            Segment::Name(key) => {
                let entries = table_entries(node);
                let child = match entry_node(entries, key) {
                    Some(c) => c,
                    None => Node::Nil,
                };
                lemma_read_after_write(child, rest, value);
            },
            Segment::Index(index) => {
                let items = list_items(node);
                let at = resolved_index(index, items.len());
                let grown = padded(items, at + 1);
                assert(resolved_index(index, grown.len()) == at);
                lemma_read_after_write(grown[at], rest, value);
            },
        }
    }
}

/// Law: writing under one top-level name leaves the entry under every other
/// top-level name as it was.
pub proof fn lemma_write_keeps_other_names(
    node: Node,
    path: Seq<Segment>,
    value: Seq<char>,
    name: Seq<char>,
)
    requires
        path.len() > 0,
        path[0] is Name,
        path[0] != Segment::Name(name),
    ensures
        entry_node(table_entries(set_at(node, path, value)), name) == entry_node(
            table_entries(node),
            name,
        ),
{
}

/// Whether two paths part at a name: they go through the same names and
/// then on through two different names.
pub open spec fn part_at_name(p: Seq<Segment>, q: Seq<Segment>) -> bool
    decreases p.len(),
{
    &&& p.len() > 0
    &&& q.len() > 0
    &&& p[0] is Name
    &&& q[0] is Name
    &&& (p[0] != q[0] || part_at_name(p.drop_first(), q.drop_first()))
}

/// Law: two writes whose paths part at a name give the same tree in either
/// order.
pub proof fn lemma_parting_writes_commute(
    node: Node,
    p: Seq<Segment>,
    v: Seq<char>,
    q: Seq<Segment>,
    w: Seq<char>,
)
    requires
        part_at_name(p, q),
    ensures
        set_at(set_at(node, p, v), q, w) == set_at(set_at(node, q, w), p, v),
    decreases p.len(),
{
    let a = p[0]->Name_0;
    let b = q[0]->Name_0;
    let m = table_entries(node);
    let child = |key: Seq<char>|
        match entry_node(m, key) {
            Some(c) => c,
            None => Node::Nil,
        };
    if a != b {
        let ca = set_at(child(a), p.drop_first(), v);
        let cb = set_at(child(b), q.drop_first(), w);
        assert(table_entries(set_at(set_at(node, p, v), q, w)) =~= m.insert(a, ca).insert(b, cb));
        assert(table_entries(set_at(set_at(node, q, w), p, v)) =~= m.insert(b, cb).insert(a, ca));
        assert(m.insert(a, ca).insert(b, cb) =~= m.insert(b, cb).insert(a, ca));
    } else {
        lemma_parting_writes_commute(child(a), p.drop_first(), v, q.drop_first(), w);
        let both = set_at(set_at(child(a), p.drop_first(), v), q.drop_first(), w);
        let first_p = m.insert(a, set_at(child(a), p.drop_first(), v));
        assert(table_entries(set_at(set_at(node, p, v), q, w)) =~= first_p.insert(a, both));
        assert(first_p.insert(a, both) =~= m.insert(a, both));
        let first_q = m.insert(a, set_at(child(a), q.drop_first(), w));
        assert(first_q.insert(a, set_at(set_at(child(a), q.drop_first(), w), p.drop_first(), v))
            =~= m.insert(a, both));
    }
}

/// Law: two neighbouring writes whose paths part at a name can trade places
/// in a list of writes without changing the tree it makes, so a list of
/// writes whose paths part pairwise makes the same tree in any order.
pub proof fn lemma_parting_writes_swap(
    node: Node,
    before: Seq<(Seq<Segment>, Seq<char>)>,
    a: (Seq<Segment>, Seq<char>),
    b: (Seq<Segment>, Seq<char>),
    after: Seq<(Seq<Segment>, Seq<char>)>,
)
    requires
        part_at_name(a.0, b.0),
    ensures
        apply_writes(node, before + seq![a, b] + after) == apply_writes(
            node,
            before + seq![b, a] + after,
        ),
    decreases after.len(),
{
    let ab = before + seq![a, b];
    let ba = before + seq![b, a];
    if after.len() == 0 {
        assert(ab + after =~= ab);
        assert(ba + after =~= ba);
        assert(ab.drop_last() =~= before.push(a));
        assert(ba.drop_last() =~= before.push(b));
        assert(before.push(a).drop_last() =~= before);
        assert(before.push(b).drop_last() =~= before);
        assert(ab.last() == b && ba.last() == a);
        assert(before.push(a).last() == a && before.push(b).last() == b);
        let start = apply_writes(node, before);
        assert(apply_writes(node, before.push(a)) == set_at(start, a.0, a.1));
        assert(apply_writes(node, before.push(b)) == set_at(start, b.0, b.1));
        assert(apply_writes(node, ab) == set_at(set_at(start, a.0, a.1), b.0, b.1));
        assert(apply_writes(node, ba) == set_at(set_at(start, b.0, b.1), a.0, a.1));
        lemma_parting_writes_commute(start, a.0, a.1, b.0, b.1);
    } else {
        lemma_parting_writes_swap(node, before, a, b, after.drop_last());
        assert((ab + after).drop_last() =~= ab + after.drop_last());
        assert((ba + after).drop_last() =~= ba + after.drop_last());
        assert((ab + after).last() == after.last());
        assert((ba + after).last() == after.last());
    }
}

} // verus!
