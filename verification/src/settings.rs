//! The settings format of the service, as the `config` crate reads it: the
//! writes that the process environment and the overrides make into the
//! settings tree, the grammar of their keys, and how texts read as integers
//! and booleans.
//!
//! An environment variable `APP__SECTION__FIELD` writes at the key
//! `section.field`: the prefix `APP__` is matched without regard to case and
//! dropped, each `__` becomes `.`, and the key is lower-cased. A key is read as
//! a path (`name`, then `.name` and `[index]` steps); an environment key that
//! is not one is written as a single name. An override writes at its key as
//! written, which must be a path. The environment is written first, then the
//! overrides, each in the order given. The `config` crate writes each group
//! in the order its hash maps yield; writes whose paths part at a name make
//! the same tree in any order (`tree::lemma_parting_writes_swap`), so the
//! order given matters only where one path runs into or through another.
//!
//! Case folding turns ASCII capitals and the Kelvin sign (U+212A, whose lower
//! case is `k`) into ASCII lower case and keeps every other character. No
//! other character has a lower case made of ASCII characters, so a key that
//! holds one is no path either way, and it is written as a name that no
//! setting reads.
use crate::decimal::{all_digit_chars, char_digits_value, i64_from_text, is_digit_char, parse_i64_text};
use crate::tree::{
    table_entries, apply_writes, empty_table, node_view, path_fits, path_view, set_at, set_node, writes_fit, Node,
    PathSegment, Segment, SettingNode, fits_node, node_at, entry_node, lemma_read_after_write,
    lemma_write_keeps_other_names,
};
use vstd::prelude::*;

verus! {

/// `c` case-folded: ASCII capitals and the Kelvin sign turned lower case.
pub open spec fn ascii_lower(c: char) -> char {
    if 'A' <= c <= 'Z' {
        ((c as int) + 32) as char
    } else if c == '\u{212A}' {
        'k'
    } else {
        c
    }
}

fn lower_char(c: char) -> (r: char)
    ensures
        r == ascii_lower(c),
{
    if 'A' <= c && c <= 'Z' {
        ((c as u32) + 32) as u8 as char
    } else if c == '\u{212A}' {
        'k'
    } else {
        c
    }
}

/// Whether `text` spells `word` (given in lower case) without regard to case.
pub open spec fn same_word(text: Seq<char>, word: Seq<char>) -> bool {
    text.len() == word.len() && forall|i: int|
        0 <= i < text.len() ==> ascii_lower(#[trigger] text[i]) == word[i]
}

fn is_word(text: &str, word: &Vec<char>) -> (r: bool)
    ensures
        r == same_word(text@, word@),
{
    let len = text.unicode_len();
    if len != word.len() {
        return false;
    }
    let mut i: usize = 0;
    while i < len
        invariant
            len == text@.len(),
            len == word@.len(),
            i <= len,
            forall|j: int| 0 <= j < i ==> ascii_lower(#[trigger] text@[j]) == word@[j],
        decreases len - i,
    {
        if lower_char(text.get_char(i)) != word[i] {
            return false;
        }
        i = i + 1;
    }
    true
}

/// Whether `name` starts with the environment prefix `APP__`, case aside.
pub open spec fn has_env_prefix(name: Seq<char>) -> bool {
    &&& name.len() >= 5
    &&& ascii_lower(name[0]) == 'a'
    &&& ascii_lower(name[1]) == 'p'
    &&& ascii_lower(name[2]) == 'p'
    &&& name[3] == '_'
    &&& name[4] == '_'
}

/// `s` with each `__` (taken from the left) turned into `.` and every other
/// character case-folded.
pub open spec fn normalized_key(s: Seq<char>) -> Seq<char>
    decreases s.len(),
{
    if s.len() == 0 {
        Seq::empty()
    } else if s.len() >= 2 && s[0] == '_' && s[1] == '_' {
        seq!['.'] + normalized_key(s.skip(2))
    } else {
        seq![ascii_lower(s[0])] + normalized_key(s.skip(1))
    }
}

/// The key an environment variable sets, if it carries the prefix.
pub open spec fn env_key(name: Seq<char>) -> Option<Seq<char>> {
    if has_env_prefix(name) {
        Some(normalized_key(name.skip(5)))
    } else {
        None
    }
}

/// The characters of `text`.
pub fn chars_of(text: &str) -> (chars: Vec<char>)
    ensures
        chars@ == text@,
{
    let len = text.unicode_len();
    let mut chars: Vec<char> = Vec::new();
    let mut i: usize = 0;
    while i < len
        invariant
            len == text@.len(),
            i <= len,
            chars@ == text@.take(i as int),
        decreases len - i,
    {
        chars.push(text.get_char(i));
        assert(chars@ =~= text@.take(i + 1));
        i = i + 1;
    }
    assert(text@.take(len as int) =~= text@);
    chars
}

/// The key the environment variable `name` sets, if it carries the prefix.
pub fn env_key_of(name: &str) -> (key: Option<Vec<char>>)
    ensures
        key is Some == env_key(name@) is Some,
        key matches Some(k) ==> Some(k@) == env_key(name@),
{
    let len = name.unicode_len();
    if len < 5 {
        return None;
    }
    if !(lower_char(name.get_char(0)) == 'a' && lower_char(name.get_char(1)) == 'p'
        && lower_char(name.get_char(2)) == 'p' && name.get_char(3) == '_' && name.get_char(4)
        == '_') {
        return None;
    }
    let ghost rest = name@.skip(5);
    let mut key: Vec<char> = Vec::new();
    let mut i: usize = 5;
    while i < len
        invariant
            5 <= i <= len,
            len == name@.len(),
            rest == name@.skip(5),
            normalized_key(rest) == key@ + normalized_key(name@.skip(i as int)),
        decreases len - i,
    {
        let ghost tail = name@.skip(i as int);
        let c = name.get_char(i);
        if c == '_' && i + 1 < len && name.get_char(i + 1) == '_' {
            assert(tail.skip(2) =~= name@.skip(i + 2));
            key.push('.');
            assert(normalized_key(rest) =~= key@ + normalized_key(name@.skip(i + 2)));
            i = i + 2;
        } else {
            assert(tail.skip(1) =~= name@.skip(i + 1));
            key.push(lower_char(c));
            assert(normalized_key(rest) =~= key@ + normalized_key(name@.skip(i + 1)));
            i = i + 1;
        }
    }
    assert(name@.skip(len as int) =~= Seq::<char>::empty());
    assert(normalized_key(rest) =~= key@);
    Some(key)
}

/// Whether two character sequences are the same.
pub fn same_chars(a: &[char], b: &[char]) -> (r: bool)
    ensures
        r == (a@ == b@),
{
    let len = a.len();
    if len != b.len() {
        return false;
    }
    let mut i: usize = 0;
    while i < len
        invariant
            len == a@.len(),
            len == b@.len(),
            i <= len,
            forall|j: int| 0 <= j < i ==> a@[j] == b@[j],
        decreases len - i,
    {
        if a[i] != b[i] {
            return false;
        }
        i = i + 1;
    }
    assert(a@ =~= b@);
    true
}

/// A character a name in a key path may hold: ASCII letters and digits,
/// space, `_` and `-`.
pub open spec fn is_name_char(c: char) -> bool {
    ('a' <= c <= 'z') || ('A' <= c <= 'Z') || ('0' <= c <= '9') || c == ' ' || c == '_' || c
        == '-'
}

/// Space or tab.
pub open spec fn is_blank(c: char) -> bool {
    c == ' ' || c == '\t'
}

/// The classes of characters the key grammar reads runs of.
pub enum CharClass {
    Name,
    Blank,
    Digit,
}

/// Whether `c` is of the class.
pub open spec fn in_class(c: char, class: CharClass) -> bool {
    match class {
        CharClass::Name => is_name_char(c),
        CharClass::Blank => is_blank(c),
        CharClass::Digit => is_digit_char(c),
    }
}

/// The length of the run of characters of the class at the start of `s`.
pub open spec fn run_len(s: Seq<char>, class: CharClass) -> nat
    decreases s.len(),
{
    if s.len() > 0 && in_class(s[0], class) {
        1 + run_len(s.drop_first(), class)
    } else {
        0
    }
}

/// A run is no longer than what it is taken from.
pub proof fn lemma_run_len_bound(s: Seq<char>, class: CharClass)
    ensures
        run_len(s, class) <= s.len(),
    decreases s.len(),
{
    if s.len() > 0 && in_class(s[0], class) {
        lemma_run_len_bound(s.drop_first(), class);
    }
}

/// The index that follows a `[` at the start of `s`: blanks, an optional
/// `-`, digits, blanks and `]`. Gives its value, which must fit an `isize`,
/// and the number of characters it takes, `]` included.
pub open spec fn index_part(s: Seq<char>) -> Option<(int, nat)> {
    let b1 = run_len(s, CharClass::Blank);
    let t = s.skip(b1 as int);
    let sign: nat = if t.len() > 0 && t[0] == '-' {
        1
    } else {
        0
    };
    let d = run_len(t.skip(sign as int), CharClass::Digit);
    let magnitude = char_digits_value(t.subrange(sign as int, (sign + d) as int)) as int;
    let value = if sign == 1 {
        -magnitude
    } else {
        magnitude
    };
    let b2 = run_len(t.skip((sign + d) as int), CharClass::Blank);
    let after = b1 + sign + d + b2;
    if d > 0 && after < s.len() && s[after as int] == ']' && isize::MIN <= value <= isize::MAX {
        Some((value, (after + 1) as nat))
    } else {
        None
    }
}

/// The steps `s` adds to the path read so far, `done`: any number of
/// `.name` and `[index]`.
pub open spec fn parse_steps(s: Seq<char>, done: Seq<Segment>) -> Option<Seq<Segment>>
    decreases s.len(),
{
    if s.len() == 0 {
        Some(done)
    } else if s[0] == '.' {
        let n = run_len(s.drop_first(), CharClass::Name);
        proof {
            lemma_run_len_bound(s.drop_first(), CharClass::Name);
        }
        if n == 0 {
            None
        } else {
            parse_steps(s.skip(1 + n as int), done.push(Segment::Name(s.subrange(1, 1 + n as int))))
        }
    } else if s[0] == '[' {
        match index_part(s.drop_first()) {
            Some((value, used)) => parse_steps(s.skip(1 + used as int), done.push(Segment::Index(value))),
            None => None,
        }
    } else {
        None
    }
}

/// The path a key spells, as the `config` crate reads one: a name (a run of
/// name characters), then any number of `.name` and `[index]` steps.
pub open spec fn parse_path(key: Seq<char>) -> Option<Seq<Segment>> {
    let n = run_len(key, CharClass::Name);
    if n == 0 {
        None
    } else {
        parse_steps(key.skip(n as int), seq![Segment::Name(key.take(n as int))])
    }
}

fn in_class_exec(c: char, class: &CharClass) -> (r: bool)
    ensures
        r == in_class(c, *class),
{
    match class {
        CharClass::Name => ('a' <= c && c <= 'z') || ('A' <= c && c <= 'Z') || ('0' <= c && c
            <= '9') || c == ' ' || c == '_' || c == '-',
        CharClass::Blank => c == ' ' || c == '\t',
        CharClass::Digit => '0' <= c && c <= '9',
    }
}

/// The length of the run of the class in `s` from `start`.
fn run_at(s: &[char], start: usize, class: CharClass) -> (n: usize)
    requires
        start <= s@.len(),
    ensures
        n == run_len(s@.skip(start as int), class),
        start + n <= s@.len(),
{
    let mut i = start;
    while i < s.len() && in_class_exec(s[i], &class)
        invariant
            start <= i <= s@.len(),
            run_len(s@.skip(start as int), class) == (i - start) + run_len(s@.skip(i as int), class),
        decreases s@.len() - i,
    {
        assert(s@.skip(i as int).drop_first() =~= s@.skip(i + 1));
        i = i + 1;
    }
    if i < s.len() {
        assert(s@.skip(i as int)[0] == s@[i as int]);
    }
    i - start
}

/// The characters of `s` from `start` to `end`.
fn chars_between(s: &[char], start: usize, end: usize) -> (part: Vec<char>)
    requires
        start <= end <= s@.len(),
    ensures
        part@ == s@.subrange(start as int, end as int),
{
    let mut part: Vec<char> = Vec::new();
    let mut i = start;
    while i < end
        invariant
            start <= i <= end <= s@.len(),
            part@ == s@.subrange(start as int, i as int),
        decreases end - i,
    {
        part.push(s[i]);
        assert(part@ =~= s@.subrange(start as int, i + 1));
        i = i + 1;
    }
    part
}

/// Bound above the magnitude of every index that fits: 2^64.
const INDEX_CAP: u128 = 0x1_0000_0000_0000_0000u128;

/// The value of the digits of `s` from `start` to `end`, if it is at most
/// `INDEX_CAP`.
fn digits_value_at(s: &[char], start: usize, end: usize) -> (value: Option<u128>)
    requires
        start <= end <= s@.len(),
        all_digit_chars(s@.subrange(start as int, end as int)),
    ensures
        value matches Some(v) ==> v == char_digits_value(s@.subrange(start as int, end as int)),
        value is None ==> char_digits_value(s@.subrange(start as int, end as int)) > INDEX_CAP,
{
    let mut acc: u128 = 0;
    let mut over = false;
    let ghost mut exact: nat = 0;
    let mut i = start;
    while i < end
        invariant
            start <= i <= end <= s@.len(),
            all_digit_chars(s@.subrange(start as int, end as int)),
            exact == char_digits_value(s@.subrange(start as int, i as int)),
            !over ==> acc == exact && acc <= INDEX_CAP,
            over ==> exact > INDEX_CAP,
        decreases end - i,
    {
        assert(s@.subrange(start as int, i + 1).drop_last() =~= s@.subrange(start as int, i as int));
        assert(s@.subrange(start as int, end as int)[i - start] == s@[i as int]);
        let d = ((s[i] as u32) - 48) as u128;
        proof {
            exact = exact * 10 + d as nat;
        }
        if !over {
            if acc > (INDEX_CAP - d) / 10 {
                over = true;
            } else {
                acc = acc * 10 + d;
            }
        }
        i = i + 1;
    }
    if over {
        None
    } else {
        Some(acc)
    }
}

/// Reads the index that follows a `[` at `start` of `key`.
fn index_at(key: &[char], start: usize) -> (r: Option<(isize, usize)>)
    requires
        start <= key@.len(),
    ensures
        r is Some == index_part(key@.skip(start as int)) is Some,
        r matches Some((value, used)) ==> index_part(key@.skip(start as int)) == Some(
            (value as int, used as nat),
        ) && start + used <= key@.len(),
{
    let ghost s = key@.skip(start as int);
    let len = key.len();
    let b1 = run_at(key, start, CharClass::Blank);
    let p = start + b1;
    let ghost t = s.skip(b1 as int);
    assert(t =~= key@.skip(p as int));
    let negative = p < len && key[p] == '-';
    let q = if negative {
        p + 1
    } else {
        p
    };
    assert(t.skip(q - p) =~= key@.skip(q as int));
    let d = run_at(key, q, CharClass::Digit);
    let e = q + d;
    assert(t.skip(e - p) =~= key@.skip(e as int));
    let b2 = run_at(key, e, CharClass::Blank);
    let after = e + b2;
    assert(t.subrange(q - p, e - p) =~= key@.subrange(q as int, e as int));
    if d == 0 || after >= len || key[after] != ']' {
        return None;
    }
    assert(s[after - start] == key@[after as int]);
    proof {
        assert forall|j: int| 0 <= j < d implies is_digit_char(
            #[trigger] key@.subrange(q as int, e as int)[j],
        ) by {
            lemma_run_prefix(key@.skip(q as int), CharClass::Digit, j);
            assert(key@.skip(q as int)[j] == key@.subrange(q as int, e as int)[j]);
        }
    }
    match digits_value_at(key, q, e) {
        None => None,
        Some(magnitude) => {
            if negative {
                if magnitude > (isize::MAX as u128) + 1 {
                    None
                } else {
                    let value = (0 - (magnitude as i128)) as isize;
                    Some((value, after + 1 - start))
                }
            } else {
                if magnitude > isize::MAX as u128 {
                    None
                } else {
                    Some((magnitude as isize, after + 1 - start))
                }
            }
        },
    }
}

/// Every character of a run is of its class.
pub proof fn lemma_run_prefix(s: Seq<char>, class: CharClass, j: int)
    requires
        0 <= j < run_len(s, class),
    ensures
        in_class(s[j], class),
    decreases s.len(),
{
    lemma_run_len_bound(s, class);
    if j > 0 {
        lemma_run_prefix(s.drop_first(), class, j - 1);
        assert(s.drop_first()[j - 1] == s[j]);
    }
}

/// Reads `key` as a path.
pub fn parse_key_path(key: &[char]) -> (path: Option<Vec<PathSegment>>)
    ensures
        path is Some == parse_path(key@) is Some,
        path matches Some(p) ==> path_view(p@) == parse_path(key@)->0,
{
    let len = key.len();
    let n = run_at(key, 0, CharClass::Name);
    assert(key@.skip(0) =~= key@);
    if n == 0 {
        return None;
    }
    let mut segments: Vec<PathSegment> = Vec::new();
    segments.push(PathSegment::Name(chars_between(key, 0, n)));
    assert(key@.subrange(0, n as int) =~= key@.take(n as int));
    assert(path_view(segments@) =~= seq![Segment::Name(key@.take(n as int))]);
    let mut i = n;
    loop
        invariant
            i <= len,
            len == key@.len(),
            parse_path(key@) == parse_steps(key@.skip(i as int), path_view(segments@)),
        decreases len - i,
    {
        let ghost s = key@.skip(i as int);
        if i == len {
            assert(s.len() == 0);
            return Some(segments);
        }
        assert(s[0] == key@[i as int]);
        assert(s.drop_first() =~= key@.skip(i + 1));
        if key[i] == '.' {
            let m = run_at(key, i + 1, CharClass::Name);
            if m == 0 {
                return None;
            }
            let name = chars_between(key, i + 1, i + 1 + m);
            let ghost before = path_view(segments@);
            segments.push(PathSegment::Name(name));
            assert(s.subrange(1, 1 + m as int) =~= key@.subrange(i + 1, i + 1 + m));
            assert(s.skip(1 + m as int) =~= key@.skip(i + 1 + m));
            assert(path_view(segments@) =~= before.push(Segment::Name(s.subrange(1, 1 + m as int))));
            i = i + 1 + m;
        } else if key[i] == '[' {
            match index_at(key, i + 1) {
                Some((value, used)) => {
                    let ghost before = path_view(segments@);
                    segments.push(PathSegment::Index(value));
                    assert(s.skip(1 + used as int) =~= key@.skip(i + 1 + used));
                    assert(path_view(segments@) =~= before.push(Segment::Index(value as int)));
                    i = i + 1 + used;
                },
                None => {
                    return None;
                },
            }
        } else {
            return None;
        }
    }
}

/// The write an environment variable makes, if it carries the prefix: at its
/// key read as a path, or at the key as a single name where it is none.
pub open spec fn env_write(name: Seq<char>, value: Seq<char>) -> Option<(Seq<Segment>, Seq<char>)> {
    match env_key(name) {
        Some(key) => Some(
            (
                match parse_path(key) {
                    Some(path) => path,
                    None => seq![Segment::Name(key)],
                },
                value,
            ),
        ),
        None => None,
    }
}

/// The writes the environment makes, in order.
pub open spec fn env_writes(environment: Seq<(String, String)>) -> Seq<(Seq<Segment>, Seq<char>)>
    decreases environment.len(),
{
    if environment.len() == 0 {
        Seq::empty()
    } else {
        let earlier = env_writes(environment.drop_last());
        match env_write(environment.last().0@, environment.last().1@) {
            Some(w) => earlier.push(w),
            None => earlier,
        }
    }
}

/// The position of the first override whose key is not a path.
pub open spec fn first_invalid_override(overrides: Seq<(&str, &str)>) -> Option<nat>
    decreases overrides.len(),
{
    if overrides.len() == 0 {
        None
    } else {
        match first_invalid_override(overrides.drop_last()) {
            Some(i) => Some(i),
            None => if parse_path(overrides.last().0@) is Some {
                None
            } else {
                Some((overrides.len() - 1) as nat)
            },
        }
    }
}

/// The overrides the `config` crate applies: those before the first whose
/// key is not a path.
pub open spec fn applied_overrides<'a>(overrides: Seq<(&'a str, &'a str)>) -> Seq<(&'a str, &'a str)> {
    match first_invalid_override(overrides) {
        Some(i) => overrides.take(i as int),
        None => overrides,
    }
}

/// The writes the overrides make, in order (each at its key read as a path).
pub open spec fn override_writes(overrides: Seq<(&str, &str)>) -> Seq<(Seq<Segment>, Seq<char>)> {
    Seq::new(overrides.len(), |i: int| (parse_path(overrides[i].0@)->0, overrides[i].1@))
}

/// All the writes, in order: the environment's, then the overrides'.
pub open spec fn all_writes(environment: Seq<(String, String)>, overrides: Seq<(&str, &str)>) -> Seq<
    (Seq<Segment>, Seq<char>),
> {
    env_writes(environment) + override_writes(applied_overrides(overrides))
}

/// The settings tree the environment and the overrides make.
pub open spec fn settings_tree(environment: Seq<(String, String)>, overrides: Seq<(&str, &str)>) -> Node {
    apply_writes(empty_table(), all_writes(environment, overrides))
}

/// Whether every write fits, so that building the tree does not panic.
pub open spec fn settings_fit(environment: Seq<(String, String)>, overrides: Seq<(&str, &str)>) -> bool {
    writes_fit(empty_table(), all_writes(environment, overrides))
}

/// A prefix of writes that fit fits, and the next write fits what it leaves.
pub proof fn lemma_writes_fit_prefix(node: Node, writes: Seq<(Seq<Segment>, Seq<char>)>, k: int)
    requires
        writes_fit(node, writes),
        0 <= k < writes.len(),
    ensures
        writes_fit(node, writes.take(k + 1)),
        path_fits(apply_writes(node, writes.take(k)), writes[k].0),
        apply_writes(node, writes.take(k + 1)) == set_at(
            apply_writes(node, writes.take(k)),
            writes[k].0,
            writes[k].1,
        ),
    decreases writes.len(),
{
    assert(writes.take(k + 1).drop_last() =~= writes.take(k));
    if k + 1 == writes.len() {
        assert(writes.take(k + 1) =~= writes);
    } else {
        assert(writes.drop_last().take(k + 1) =~= writes.take(k + 1));
        assert(writes.drop_last().take(k) =~= writes.take(k));
        lemma_writes_fit_prefix(node, writes.drop_last(), k);
    }
}

/// The environment's writes so far are a prefix of all its writes.
pub proof fn lemma_env_writes_prefix(environment: Seq<(String, String)>, j: int)
    requires
        0 <= j <= environment.len(),
    ensures
        env_writes(environment.take(j)).len() <= env_writes(environment).len(),
        env_writes(environment).take(env_writes(environment.take(j)).len() as int) == env_writes(
            environment.take(j),
        ),
    decreases environment.len(),
{
    if j == environment.len() {
        assert(environment.take(j) =~= environment);
        assert(env_writes(environment).take(env_writes(environment).len() as int) =~= env_writes(
            environment,
        ));
    } else {
        assert(environment.drop_last().take(j) =~= environment.take(j));
        lemma_env_writes_prefix(environment.drop_last(), j);
        let w = env_writes(environment.take(j));
        assert(env_writes(environment).take(w.len() as int) =~= env_writes(
            environment.drop_last(),
        ).take(w.len() as int));
    }
}

/// Why the settings tree could not be built.
#[derive(Clone, Copy, Debug, PartialEq, Eq, Structural)]
pub enum BuildFailure {
    /// A write counts a negative index past the front of its list.
    DoesNotFit,
    /// The override at this position has a key that is not a path.
    InvalidOverrideKey(usize),
}

/// Builds the settings tree. Fails where a write does not fit (where the
/// `config` crate panics), else at the first override whose key is not a path.
pub fn build_settings_tree(environment: &[(String, String)], overrides: &[(&str, &str)]) -> (r:
    Result<SettingNode, BuildFailure>)
    ensures
        (r == Err::<SettingNode, BuildFailure>(BuildFailure::DoesNotFit)) == !settings_fit(
            environment@,
            overrides@,
        ),
        r matches Err(BuildFailure::InvalidOverrideKey(i)) ==> first_invalid_override(overrides@)
            == Some(i as nat),
        settings_fit(environment@, overrides@) ==> (r is Ok == first_invalid_override(
            overrides@,
        ) is None),
        r matches Ok(tree) ==> node_view(tree) == settings_tree(environment@, overrides@),
{
    let ghost writes = all_writes(environment@, overrides@);
    let ghost env_part = env_writes(environment@);
    assert(writes.take(env_part.len() as int) =~= env_part);
    let mut tree = SettingNode::Table(Vec::new());
    assert(table_entries(node_view(tree)) =~= Map::<Seq<char>, Node>::empty());
    assert(node_view(tree) == empty_table());
    let mut j: usize = 0;
    assert(environment@.take(0) =~= Seq::<(String, String)>::empty());
    assert(writes.take(0) =~= Seq::<(Seq<Segment>, Seq<char>)>::empty());
    while j < environment.len()
        invariant
            j <= environment@.len(),
            writes == all_writes(environment@, overrides@),
            env_part == env_writes(environment@),
            writes.take(env_part.len() as int) == env_part,
            writes_fit(empty_table(), env_writes(environment@.take(j as int))),
            node_view(tree) == apply_writes(empty_table(), env_writes(environment@.take(j as int))),
        decreases environment@.len() - j,
    {
        let ghost done = env_writes(environment@.take(j as int));
        proof {
            lemma_env_writes_prefix(environment@, j as int);
            lemma_env_writes_prefix(environment@, j + 1);
        }
        assert(environment@.take(j + 1).drop_last() =~= environment@.take(j as int));
        assert(environment@.take(j + 1).last() == environment@[j as int]);
        let name = environment[j].0.as_str();
        match env_key_of(name) {
            Some(key) => {
                let path = match parse_key_path(key.as_slice()) {
                    Some(path) => path,
                    None => {
                        let mut single: Vec<PathSegment> = Vec::new();
                        single.push(PathSegment::Name(key));
                        single
                    },
                };
                let ghost w = env_write(environment@[j as int].0@, environment@[j as int].1@)->0;
                assert(path_view(path@) =~= w.0);
                assert(env_writes(environment@.take(j + 1)) == done.push(w));
                assert(writes.take(done.len() as int) =~= env_part.take(done.len() as int));
                assert(writes[done.len() as int] == env_part[done.len() as int]);
                assert(env_part.take(done.len() as int + 1) == done.push(w));
                assert(env_part.take(done.len() as int + 1)[done.len() as int] == env_part[done.len() as int]);
                assert(env_part[done.len() as int] == w);
                assert(path_view(path@).skip(0) =~= path_view(path@));
                assert(done.push(w).drop_last() =~= done);
                if !fits_node(&tree, path.as_slice(), 0) {
                    proof {
                        lemma_fit_extends(empty_table(), writes, done.len() as int);
                    }
                    return Err(BuildFailure::DoesNotFit);
                }
                tree = set_node(tree, path.as_slice(), 0, environment[j].1.as_str());
                assert(writes.take(done.len() as int + 1) =~= done.push(w));
            },
            None => {
                assert(env_writes(environment@.take(j + 1)) == done);
            },
        }
        j = j + 1;
    }
    assert(environment@.take(j as int) =~= environment@);
    assert(override_writes(overrides@.take(0)) =~= Seq::<(Seq<Segment>, Seq<char>)>::empty());
    assert(env_part + override_writes(overrides@.take(0)) =~= env_part);
    let mut i: usize = 0;
    assert(overrides@.take(0) =~= Seq::<(&str, &str)>::empty());
    while i < overrides.len()
        invariant
            j == environment@.len(),
            i <= overrides@.len(),
            writes == all_writes(environment@, overrides@),
            env_part == env_writes(environment@),
            first_invalid_override(overrides@.take(i as int)) is None,
            writes_fit(empty_table(), env_part + override_writes(overrides@.take(i as int))),
            node_view(tree) == apply_writes(
                empty_table(),
                env_part + override_writes(overrides@.take(i as int)),
            ),
        decreases overrides@.len() - i,
    {
        assert(overrides@.take(i + 1).drop_last() =~= overrides@.take(i as int));
        let key = chars_of(overrides[i].0);
        match parse_key_path(key.as_slice()) {
            None => {
                proof {
                    lemma_first_invalid_prefix(overrides@, i + 1);
                    lemma_applied_at_invalid(overrides@, i as int);
                    assert(override_writes(overrides@.take(i as int)) =~= override_writes(
                        applied_overrides(overrides@),
                    ));
                }
                return Err(BuildFailure::InvalidOverrideKey(i));
            },
            Some(path) => {
                proof {
                    lemma_first_invalid_prefix_none(overrides@, i + 1);
                    lemma_applied_prefix(overrides@, i + 1);
                }
                let ghost before = env_part + override_writes(overrides@.take(i as int));
                let ghost w = (path_view(path@), overrides@[i as int].1@);
                assert(override_writes(overrides@.take(i + 1)) =~= override_writes(
                    overrides@.take(i as int),
                ).push(w));
                assert(before.push(w) =~= env_part + override_writes(overrides@.take(i + 1)));
                assert(writes.take(before.len() as int) =~= before);
                assert(writes[before.len() as int] == w);
                assert(writes.take(before.len() as int + 1) =~= before.push(w));
                assert(path_view(path@).skip(0) =~= path_view(path@));
                assert(before.push(w).drop_last() =~= before);
                if !fits_node(&tree, path.as_slice(), 0) {
                    proof {
                        lemma_fit_extends(empty_table(), writes, before.len() as int);
                    }
                    return Err(BuildFailure::DoesNotFit);
                }
                tree = set_node(tree, path.as_slice(), 0, overrides[i].1);
            },
        }
        i = i + 1;
    }
    assert(overrides@.take(i as int) =~= overrides@);
    assert(first_invalid_override(overrides@) is None);
    assert(applied_overrides(overrides@) == overrides@);
    Ok(tree)
}

/// Writes that fit, followed by one more whose path does not fit, do not fit,
/// nor does any list of writes that begins with them.
pub proof fn lemma_fit_extends(node: Node, writes: Seq<(Seq<Segment>, Seq<char>)>, k: int)
    requires
        0 <= k < writes.len(),
        !path_fits(apply_writes(node, writes.take(k)), writes[k].0),
    ensures
        !writes_fit(node, writes),
{
    if writes_fit(node, writes) {
        lemma_writes_fit_prefix(node, writes, k);
    }
}

/// Where the override at `i` is the first that is not a path, the applied
/// overrides are those before it.
pub proof fn lemma_applied_at_invalid(overrides: Seq<(&str, &str)>, i: int)
    requires
        0 <= i < overrides.len(),
        first_invalid_override(overrides) == Some(i as nat),
    ensures
        applied_overrides(overrides) == overrides.take(i),
{
}

/// A prefix with an invalid override has the first one of the whole list.
pub proof fn lemma_first_invalid_prefix(overrides: Seq<(&str, &str)>, k: int)
    requires
        0 <= k <= overrides.len(),
        first_invalid_override(overrides.take(k)) is Some,
    ensures
        first_invalid_override(overrides) == first_invalid_override(overrides.take(k)),
    decreases overrides.len(),
{
    if k == overrides.len() {
        assert(overrides.take(k) =~= overrides);
    } else {
        assert(overrides.drop_last().take(k) =~= overrides.take(k));
        lemma_first_invalid_prefix(overrides.drop_last(), k);
    }
}

/// Where the first `k` overrides are paths, the applied overrides start with them.
pub proof fn lemma_first_invalid_prefix_none(overrides: Seq<(&str, &str)>, k: int)
    requires
        0 <= k <= overrides.len(),
        first_invalid_override(overrides.take(k)) is None,
    ensures
        forall|i: int| 0 <= i < k ==> parse_path(#[trigger] overrides[i].0@) is Some,
    decreases k,
{
    if k > 0 {
        assert(overrides.take(k).drop_last() =~= overrides.take(k - 1));
        lemma_first_invalid_prefix_none(overrides, k - 1);
        assert(overrides.take(k).last() == overrides[k - 1]);
    }
}

/// The first invalid override is one, and lies in the list.
pub proof fn lemma_first_invalid_bound(overrides: Seq<(&str, &str)>)
    ensures
        first_invalid_override(overrides) matches Some(i) ==> i < overrides.len() && parse_path(
            overrides[i as int].0@,
        ) is None,
    decreases overrides.len(),
{
    if overrides.len() > 0 {
        lemma_first_invalid_bound(overrides.drop_last());
    }
}

/// The applied overrides begin with every prefix free of invalid keys.
pub proof fn lemma_applied_prefix(overrides: Seq<(&str, &str)>, k: int)
    requires
        0 <= k <= overrides.len(),
        first_invalid_override(overrides.take(k)) is None,
    ensures
        applied_overrides(overrides).len() >= k,
        applied_overrides(overrides).take(k) == overrides.take(k),
    decreases overrides.len(),
{
    if k == overrides.len() {
        assert(overrides.take(k) =~= overrides);
        assert(overrides.take(k).take(k) =~= overrides.take(k));
    } else {
        assert(overrides.drop_last().take(k) =~= overrides.take(k));
        lemma_applied_prefix(overrides.drop_last(), k);
        match first_invalid_override(overrides.drop_last()) {
            Some(i) => {
                lemma_first_invalid_bound(overrides.drop_last());
                assert(first_invalid_override(overrides) == Some(i));
                assert(overrides.take(i as int) =~= overrides.drop_last().take(i as int));
                assert(applied_overrides(overrides).take(k) =~= applied_overrides(
                    overrides.drop_last(),
                ).take(k));
            },
            None => {
                assert(applied_overrides(overrides.drop_last()) == overrides.drop_last());
                if parse_path(overrides.last().0@) is Some {
                    assert(applied_overrides(overrides) == overrides);
                } else {
                    assert(applied_overrides(overrides) =~= overrides.drop_last());
                }
                assert(applied_overrides(overrides).take(k) =~= overrides.take(k));
            },
        }
    }
}

/// The words read as true, in lower case.
pub open spec fn is_true_word(text: Seq<char>) -> bool {
    same_word(text, seq!['t', 'r', 'u', 'e']) || same_word(text, seq!['o', 'n']) || same_word(
        text,
        seq!['y', 'e', 's'],
    )
}

/// The words read as false, in lower case.
pub open spec fn is_false_word(text: Seq<char>) -> bool {
    same_word(text, seq!['f', 'a', 'l', 's', 'e']) || same_word(text, seq!['o', 'f', 'f'])
        || same_word(text, seq!['n', 'o'])
}

/// An integer setting as the `config` crate reads its text: `true`, `on`,
/// `yes` are 1 and `false`, `off`, `no` are 0 (case aside); any other
/// text is read as an `i64`.
pub open spec fn config_integer(text: Seq<char>) -> Option<i64> {
    if is_true_word(text) {
        Some(1)
    } else if is_false_word(text) {
        Some(0)
    } else {
        i64_from_text(text)
    }
}

/// A boolean setting as the `config` crate reads its text: `1`, `true`, `on`,
/// `yes` are true and `0`, `false`, `off`, `no` are false (case aside).
pub open spec fn config_bool(text: Seq<char>) -> Option<bool> {
    if text == seq!['1'] || is_true_word(text) {
        Some(true)
    } else if text == seq!['0'] || is_false_word(text) {
        Some(false)
    } else {
        None
    }
}

/// A port setting: the integer reading of its text, cut to its low 16 bits as
/// the `config` crate's `as u16` does.
pub open spec fn config_port(text: Seq<char>) -> Option<u16> {
    match config_integer(text) {
        Some(value) => Some(value as u16),
        None => None,
    }
}

fn is_true_text(text: &str) -> (r: bool)
    ensures
        r == is_true_word(text@),
{
    is_word(text, &vec!['t', 'r', 'u', 'e']) || is_word(text, &vec!['o', 'n']) || is_word(
        text,
        &vec!['y', 'e', 's'],
    )
}

fn is_false_text(text: &str) -> (r: bool)
    ensures
        r == is_false_word(text@),
{
    is_word(text, &vec!['f', 'a', 'l', 's', 'e']) || is_word(text, &vec!['o', 'f', 'f'])
        || is_word(text, &vec!['n', 'o'])
}

/// Reads an integer setting.
pub fn read_integer(text: &str) -> (value: Option<i64>)
    ensures
        value == config_integer(text@),
{
    if is_true_text(text) {
        Some(1)
    } else if is_false_text(text) {
        Some(0)
    } else {
        parse_i64_text(text)
    }
}

/// Reads a port setting.
pub fn read_port(text: &str) -> (port: Option<u16>)
    ensures
        port == config_port(text@),
{
    match read_integer(text) {
        Some(value) => Some(value as u16),
        None => None,
    }
}

/// Reads a boolean setting.
pub fn read_bool(text: &str) -> (value: Option<bool>)
    ensures
        value == config_bool(text@),
{
    let chars = chars_of(text);
    let one_text = vec!['1'];
    let zero_text = vec!['0'];
    assert(one_text@ =~= seq!['1']);
    assert(zero_text@ =~= seq!['0']);
    let one = same_chars(chars.as_slice(), one_text.as_slice());
    let zero = same_chars(chars.as_slice(), zero_text.as_slice());
    if one || is_true_text(text) {
        Some(true)
    } else if zero || is_false_text(text) {
        Some(false)
    } else {
        None
    }
}


/// The steps read keep the path read before them in front.
pub proof fn lemma_parse_steps_keep(s: Seq<char>, done: Seq<Segment>)
    ensures
        parse_steps(s, done) matches Some(path) ==> path.len() >= done.len() && path.take(
            done.len() as int,
        ) == done,
    decreases s.len(),
{
    if s.len() > 0 {
        if s[0] == '.' {
            let n = run_len(s.drop_first(), CharClass::Name);
            lemma_run_len_bound(s.drop_first(), CharClass::Name);
            if n > 0 {
                let next = done.push(Segment::Name(s.subrange(1, 1 + n as int)));
                lemma_parse_steps_keep(s.skip(1 + n as int), next);
                if let Some(path) = parse_steps(s, done) {
                    assert(path.take(done.len() as int) =~= path.take(next.len() as int).take(
                        done.len() as int,
                    ));
                    assert(next.take(done.len() as int) =~= done);
                }
            }
        } else if s[0] == '[' {
            if let Some((value, used)) = index_part(s.drop_first()) {
                let next = done.push(Segment::Index(value));
                lemma_parse_steps_keep(s.skip(1 + used as int), next);
                if let Some(path) = parse_steps(s, done) {
                    assert(path.take(done.len() as int) =~= path.take(next.len() as int).take(
                        done.len() as int,
                    ));
                    assert(next.take(done.len() as int) =~= done);
                }
            }
        }
    } else {
        assert(done.take(done.len() as int) =~= done);
    }
}

/// A path starts with a name.
pub proof fn lemma_path_starts_with_name(key: Seq<char>)
    ensures
        parse_path(key) matches Some(path) ==> path.len() > 0 && path[0] is Name,
{
    let n = run_len(key, CharClass::Name);
    if n > 0 {
        let first = seq![Segment::Name(key.take(n as int))];
        lemma_parse_steps_keep(key.skip(n as int), first);
        if let Some(path) = parse_path(key) {
            assert(path.take(1)[0] == path[0]);
        }
    }
}

/// The writes of overrides that are all paths, with one more that is a path,
/// end with its write.
pub proof fn lemma_all_writes_push<'a>(
    environment: Seq<(String, String)>,
    overrides: Seq<(&'a str, &'a str)>,
    last: (&'a str, &'a str),
)
    requires
        first_invalid_override(overrides.push(last)) is None,
    ensures
        first_invalid_override(overrides) is None,
        parse_path(last.0@) is Some,
        all_writes(environment, overrides.push(last)) == all_writes(environment, overrides).push(
            (parse_path(last.0@)->0, last.1@),
        ),
{
    assert(overrides.push(last).drop_last() =~= overrides);
    assert(override_writes(overrides.push(last)) =~= override_writes(overrides).push(
        (parse_path(last.0@)->0, last.1@),
    ));
    assert(all_writes(environment, overrides.push(last)) =~= all_writes(environment, overrides).push(
        (parse_path(last.0@)->0, last.1@),
    ));
}

/// Law: the last override for a key wins, over the overrides before it and
/// over the environment: reading its path in the settings tree gives its
/// value.
pub proof fn lemma_last_override_wins<'a>(
    environment: Seq<(String, String)>,
    overrides: Seq<(&'a str, &'a str)>,
    last: (&'a str, &'a str),
)
    requires
        first_invalid_override(overrides.push(last)) is None,
        settings_fit(environment, overrides.push(last)),
    ensures
        node_at(settings_tree(environment, overrides.push(last)), parse_path(last.0@)->0) == Some(
            Node::Text(last.1@),
        ),
{
    lemma_all_writes_push(environment, overrides, last);
    let writes = all_writes(environment, overrides.push(last));
    assert(writes.drop_last() == all_writes(environment, overrides));
    lemma_read_after_write(
        settings_tree(environment, overrides),
        parse_path(last.0@)->0,
        last.1@,
    );
}

/// Law: an override whose path starts with one name leaves the entry under
/// every other top-level name of the settings tree as it was.
pub proof fn lemma_override_keeps_other_sections<'a>(
    environment: Seq<(String, String)>,
    overrides: Seq<(&'a str, &'a str)>,
    last: (&'a str, &'a str),
    name: Seq<char>,
)
    requires
        first_invalid_override(overrides.push(last)) is None,
        (parse_path(last.0@)->0)[0] != Segment::Name(name),
    ensures
        entry_node(table_entries(settings_tree(environment, overrides.push(last))), name)
            == entry_node(table_entries(settings_tree(environment, overrides)), name),
{
    lemma_all_writes_push(environment, overrides, last);
    lemma_path_starts_with_name(last.0@);
    let writes = all_writes(environment, overrides.push(last));
    assert(writes.drop_last() == all_writes(environment, overrides));
    lemma_write_keeps_other_names(
        settings_tree(environment, overrides),
        parse_path(last.0@)->0,
        last.1@,
        name,
    );
}

/// Law: where no override is given, the last environment variable gives its
/// value at the path of its key.
pub proof fn lemma_last_env_var_wins(
    environment: Seq<(String, String)>,
    overrides: Seq<(&str, &str)>,
    last: (String, String),
)
    requires
        overrides.len() == 0,
        env_key(last.0@) is Some,
        settings_fit(environment.push(last), overrides),
    ensures
        node_at(
            settings_tree(environment.push(last), overrides),
            (env_write(last.0@, last.1@)->0).0,
        ) == Some(Node::Text(last.1@)),
{
    let w = env_write(last.0@, last.1@)->0;
    assert(environment.push(last).drop_last() =~= environment);
    assert(applied_overrides(overrides) =~= overrides);
    assert(override_writes(overrides) =~= Seq::<(Seq<Segment>, Seq<char>)>::empty());
    assert(all_writes(environment.push(last), overrides) =~= env_writes(environment).push(w));
    assert(all_writes(environment, overrides) =~= env_writes(environment));
    let writes = all_writes(environment.push(last), overrides);
    assert(writes.drop_last() =~= env_writes(environment));
    lemma_read_after_write(settings_tree(environment, overrides), w.0, w.1);
}


/// Overrides whose keys are all paths have no invalid one.
pub proof fn lemma_all_paths_valid(overrides: Seq<(&str, &str)>)
    requires
        forall|i: int| 0 <= i < overrides.len() ==> parse_path(#[trigger] overrides[i].0@) is Some,
    ensures
        first_invalid_override(overrides) is None,
    decreases overrides.len(),
{
    if overrides.len() > 0 {
        let rest = overrides.drop_last();
        assert forall|i: int| 0 <= i < rest.len() implies parse_path(#[trigger] rest[i].0@) is Some by {
            assert(rest[i] == overrides[i]);
        }
        lemma_all_paths_valid(rest);
        assert(parse_path(overrides[overrides.len() - 1].0@) is Some);
    }
}


/// Law: case folding turns each ASCII capital into its lower-case letter
/// (the character 32 codes on) and keeps ASCII lower-case letters, digits,
/// `_`, `.` and every other character that is no capital and no Kelvin sign.
pub proof fn lemma_case_folding(c: char)
    ensures
        'A' <= c <= 'Z' ==> ascii_lower(c) as u32 == c as u32 + 32,
        !('A' <= c <= 'Z') && c != '\u{212A}' ==> ascii_lower(c) == c,
        c == '\u{212A}' ==> ascii_lower(c) == 'k',
{
}

/// A key without `__` keeps its length, each character case-folded.
proof fn lemma_normalized_without_separators(s: Seq<char>)
    requires
        forall|i: int| 0 <= i < s.len() - 1 ==> !(#[trigger] s[i] == '_' && s[i + 1] == '_'),
    ensures
        normalized_key(s).len() == s.len(),
        forall|i: int| 0 <= i < s.len() ==> #[trigger] normalized_key(s)[i] == ascii_lower(s[i]),
    decreases s.len(),
{
    if s.len() > 0 {
        let rest = s.skip(1);
        assert forall|i: int| 0 <= i < rest.len() - 1 implies !(#[trigger] rest[i] == '_' && rest[i
            + 1] == '_') by {
            assert(rest[i] == s[i + 1] && rest[i + 1] == s[i + 2]);
        }
        lemma_normalized_without_separators(rest);
        if s.len() >= 2 {
            assert(!(s[0] == '_' && s[1] == '_'));
        }
        assert forall|i: int| 0 <= i < s.len() implies #[trigger] normalized_key(s)[i]
            == ascii_lower(s[i]) by {
            if i > 0 {
                assert(normalized_key(s)[i] == normalized_key(rest)[i - 1]);
                assert(rest[i - 1] == s[i]);
            }
        }
    }
}

/// Law: an `APP__` variable whose name holds no `__` after the prefix
/// writes at its name after the prefix, lower-cased: as long as that rest,
/// each ASCII capital turned into its lower-case letter and every other
/// character but the Kelvin sign kept.
pub proof fn lemma_env_key_lowercases(name: Seq<char>)
    requires
        has_env_prefix(name),
        forall|i: int| 5 <= i < name.len() - 1 ==> !(#[trigger] name[i] == '_' && name[i + 1] == '_'),
    ensures
        env_key(name) is Some,
        (env_key(name)->0).len() == name.len() - 5,
        forall|i: int|
            0 <= i < name.len() - 5 && 'A' <= #[trigger] name[i + 5] <= 'Z' ==> (env_key(
                name,
            )->0)[i] as u32 == name[i + 5] as u32 + 32,
        forall|i: int|
            0 <= i < name.len() - 5 && !('A' <= #[trigger] name[i + 5] <= 'Z') && name[i + 5]
                != '\u{212A}' ==> (env_key(name)->0)[i] == name[i + 5],
{
    let rest = name.skip(5);
    assert forall|i: int| 0 <= i < rest.len() - 1 implies !(#[trigger] rest[i] == '_' && rest[i
        + 1] == '_') by {
        assert(rest[i] == name[i + 5] && rest[i + 1] == name[i + 6]);
    }
    lemma_normalized_without_separators(rest);
    assert forall|i: int| 0 <= i < name.len() - 5 implies #[trigger] (env_key(name)->0)[i]
        == ascii_lower(name[i + 5]) by {
        assert(rest[i] == name[i + 5]);
    }
    assert forall|i: int| 0 <= i < name.len() - 5 && 'A' <= #[trigger] name[i + 5] <= 'Z' implies (
    env_key(name)->0)[i] as u32 == name[i + 5] as u32 + 32 by {
        lemma_case_folding(name[i + 5]);
    }
    assert forall|i: int|
        0 <= i < name.len() - 5 && !('A' <= #[trigger] name[i + 5] <= 'Z') && name[i + 5]
            != '\u{212A}' implies (env_key(name)->0)[i] == name[i + 5] by {
        lemma_case_folding(name[i + 5]);
    }
}

} // verus!
