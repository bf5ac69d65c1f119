//! The fingerprint cache: what is stored for a path, the statements that read
//! and write it, and how a long list of paths is cut into batches that the
//! database accepts.
//!
//! The cache is a table `Cache` keyed by `(key, raw)`. A row holds the path as
//! its key, `raw = 1`, `mode = 1` for text, and as its value the JSON of a
//! `StateValue`.

use crate::json_format::{
    escaped_char, expect, holds, lemma_escaped_plain, lemma_holds_char, lemma_holds_split, lemma_read_quoted,
    plain, quote, quoted, read_str, read_string, skip_spaces, skip_ws, take,
};
use crate::order::same;
use crate::text::{chars_of, decimal, decimal_string, digit};
use vstd::prelude::*;

verus! {

/// The most parameters that one batch of a lookup binds.
pub const BATCH_SIZE: usize = 7999;

/// The value of `raw` in every row that is written, and in every row that is
/// read.
pub const RAW: u8 = 1;

/// The value of `mode` in every row that is written: the value is text.
pub const MODE_TEXT: u8 = 1;

/// The setting of the pragma `synchronous` on an open cache.
pub const SYNCHRONOUS: &'static str = "NORMAL";

/// The setting of the pragma `journal_mode` on an open cache.
pub const JOURNAL_MODE: &'static str = "WAL";

/// The statement that creates the table.
pub const CREATE_TABLE: &'static str = "CREATE TABLE IF NOT EXISTS Cache (
                    rowid INTEGER PRIMARY KEY,
                    key BLOB,
                    raw INTEGER,
                    store_time REAL,
                    expire_time REAL,
                    access_time REAL,
                    access_count INTEGER DEFAULT 0,
                    tag BLOB,
                    size INTEGER DEFAULT 0,
                    mode INTEGER DEFAULT 0,
                    filename TEXT,
                    value BLOB
                )";

/// The statement that creates the index by which rows are unique.
pub const CREATE_INDEX: &'static str =
    "CREATE UNIQUE INDEX IF NOT EXISTS Cache_key_raw ON Cache(key, raw)";

/// The statement that reads the value of one key, bound as `:key`.
pub const SELECT_ONE: &'static str = "SELECT value FROM Cache WHERE key = :key and raw = 1";

/// The statement that writes one row, with the parameters `:key`, `:raw`,
/// `:store_time`, `:expire_time`, `:access_time`, `:tag`, `:mode`, `:filename`
/// and `:value`.
pub const UPSERT_ONE: &'static str = "INSERT OR REPLACE INTO Cache(
            key, raw, store_time, expire_time, access_time, tag, mode, filename, value)
            VALUES (:key, :raw, :store_time, :expire_time, :access_time, :tag, :mode, :filename, :value)
            ON CONFLICT(key, raw) DO UPDATE SET value = excluded.value";

/// The statement that tells whether the table has a row: its one result is 0
/// for an empty table.
pub const ANY_ROW: &'static str = "SELECT EXISTS (SELECT 1 FROM Cache)";

/// The identifier that the cache holds for a path.
#[derive(Clone, Debug, PartialEq, Eq)]
pub struct StateHash {
    pub oid: String,
}

/// What the cache holds for a path: the fingerprint of the file when it was
/// hashed, its size, and the identifier of its content.
#[derive(Clone, Debug, PartialEq, Eq)]
pub struct StateValue {
    pub checksum: String,
    pub size: u64,
    pub hash_info: StateHash,
}

/// A cache value as texts and a number.
pub ghost struct StateValueView {
    pub checksum: Seq<char>,
    pub size: u64,
    pub oid: Seq<char>,
}

impl View for StateValue {
    type V = StateValueView;

    open spec fn view(&self) -> StateValueView {
        StateValueView { checksum: self.checksum@, size: self.size, oid: self.hash_info.oid@ }
    }
}

/// The JSON of a cache value: the keys `checksum`, `size` and `hash_info`, in
/// that order and without spaces, the last an object with the key `md5`.
#[verifier::opaque]
pub open spec fn state_json(v: StateValueView) -> Seq<char> {
    "{\"checksum\":"@ + quoted(v.checksum) + ",\"size\":"@ + decimal(v.size as nat)
        + ",\"hash_info\":{\"md5\":"@ + quoted(v.oid) + "}}"@
}

impl StateValue {
    /// The JSON text under which the value is stored.
    pub fn to_json(&self) -> (json: String)
        ensures
            json@ == state_json(self@),
    {
        let mut out = String::new();
        out.append("{\"checksum\":");
        out.append(quote(self.checksum.as_str()).unwrap().as_str());
        out.append(",\"size\":");
        out.append(decimal_string(self.size as u128).as_str());
        out.append(",\"hash_info\":{\"md5\":");
        out.append(quote(self.hash_info.oid.as_str()).unwrap().as_str());
        out.append("}}");
        proof {
            reveal(state_json);
        }
        assert(out@ =~= state_json(self@));
        out
    }
}

/// `n` times `piece`, with `sep` between one and the next.
pub open spec fn repeated(piece: Seq<char>, sep: Seq<char>, n: nat) -> Seq<char>
    decreases n,
{
    if n == 0 {
        Seq::empty()
    } else if n == 1 {
        piece
    } else {
        repeated(piece, sep, (n - 1) as nat) + sep + piece
    }
}

fn repeat_joined(piece: &str, sep: &str, n: usize) -> (s: String)
    ensures
        s@ == repeated(piece@, sep@, n as nat),
{
    let mut s = String::new();
    let mut i: usize = 0;
    while i < n
        invariant
            i <= n,
            s@ == repeated(piece@, sep@, i as nat),
        decreases n - i,
    {
        if i > 0 {
            s.append(sep);
        }
        s.append(piece);
        i += 1;
        assert(s@ =~= repeated(piece@, sep@, i as nat));
    }
    s
}

/// The statement that writes `batch_size` rows at once. Each row binds four
/// parameters: the key, the time of storing, the time of access, the value.
pub open spec fn insert_statement(batch_size: nat) -> Seq<char> {
    "INSERT OR REPLACE INTO Cache(
    key, raw, store_time, expire_time, access_time, tag, mode, filename, value)
    VALUES "@
        + repeated("(?, 1, ?, NULL, ?, NULL, 1, NULL, ?)"@, ", "@, batch_size)
        + " ON CONFLICT(key, raw) DO UPDATE SET value = excluded.value"@
}

/// The statement that writes `batch_size` rows at once.
pub fn prepare_insert(batch_size: usize) -> (query: String)
    ensures
        query@ == insert_statement(batch_size as nat),
{
    let mut query = String::new();
    query.append(
        "INSERT OR REPLACE INTO Cache(
    key, raw, store_time, expire_time, access_time, tag, mode, filename, value)
    VALUES ",
    );
    query.append(repeat_joined("(?, 1, ?, NULL, ?, NULL, 1, NULL, ?)", ", ", batch_size).as_str());
    query.append(" ON CONFLICT(key, raw) DO UPDATE SET value = excluded.value");
    assert(query@ =~= insert_statement(batch_size as nat));
    query
}

/// The statement that reads the rows of `batch_size` keys at once, each key a
/// parameter.
pub open spec fn select_statement(batch_size: nat) -> Seq<char> {
    "SELECT key, value from Cache WHERE key in ("@ + repeated("?"@, ", "@, batch_size)
        + ") and raw = 1"@
}

/// The statement that reads the rows of `batch_size` keys at once.
pub fn prepare_select(batch_size: usize) -> (query: String)
    ensures
        query@ == select_statement(batch_size as nat),
{
    let mut query = String::new();
    query.append("SELECT key, value from Cache WHERE key in (");
    query.append(repeat_joined("?", ", ", batch_size).as_str());
    query.append(") and raw = 1");
    assert(query@ =~= select_statement(batch_size as nat));
    query
}

/// The items `start..end` of a list, with the statement that handles them.
#[derive(Debug)]
pub struct Batch {
    pub start: usize,
    pub end: usize,
    pub query: String,
}

/// The ranges that cut the items from `start` up to `total` into runs of
/// `size`, the last of which may be shorter.
pub open spec fn ranges(start: nat, total: nat, size: nat) -> Seq<(nat, nat)>
    decreases total - start,
{
    if size == 0 || start >= total {
        Seq::empty()
    } else if total - start <= size {
        seq![(start, total)]
    } else {
        seq![(start, start + size)] + ranges(start + size, total, size)
    }
}

/// The fields of the batches of a lookup that handle the given ranges.
pub open spec fn lookups(ranges: Seq<(nat, nat)>) -> Seq<(nat, nat, Seq<char>)> {
    ranges.map_values(|r: (nat, nat)| (r.0, r.1, select_statement((r.1 - r.0) as nat)))
}

/// The fields of the batches of a write that handle the given ranges.
pub open spec fn writes(ranges: Seq<(nat, nat)>) -> Seq<(nat, nat, Seq<char>)> {
    ranges.map_values(|r: (nat, nat)| (r.0, r.1, insert_statement((r.1 - r.0) as nat)))
}

/// The fields of a list of batches.
pub open spec fn batch_views(batches: Seq<Batch>) -> Seq<(nat, nat, Seq<char>)> {
    batches.map_values(|b: Batch| (b.start as nat, b.end as nat, b.query@))
}

fn plan(total: usize, size: usize, write: bool) -> (batches: Vec<Batch>)
    requires
        size > 0,
    ensures
        batch_views(batches@) == if write {
            writes(ranges(0, total as nat, size as nat))
        } else {
            lookups(ranges(0, total as nat, size as nat))
        },
{
    let mut batches: Vec<Batch> = Vec::new();
    let mut start: usize = 0;
    let ghost all = ranges(0, total as nat, size as nat);
    let ghost mut done: Seq<(nat, nat)> = Seq::empty();
    while start < total
        invariant
            start <= total,
            size > 0,
            done + ranges(start as nat, total as nat, size as nat) =~= all,
            batch_views(batches@) =~= if write {
                writes(done)
            } else {
                lookups(done)
            },
        decreases total - start,
    {
        let end = if total - start <= size {
            total
        } else {
            start + size
        };
        let query = if write {
            prepare_insert(end - start)
        } else {
            prepare_select(end - start)
        };
        let ghost before = batches@;
        let ghost text = query@;
        batches.push(Batch { start, end, query });
        proof {
            let range = (start as nat, end as nat);
            assert(batch_views(batches@) =~= batch_views(before).push((range.0, range.1, text)));
            assert(writes(done.push(range)) =~= writes(done).push(
                (range.0, range.1, insert_statement((range.1 - range.0) as nat)),
            ));
            assert(lookups(done.push(range)) =~= lookups(done).push(
                (range.0, range.1, select_statement((range.1 - range.0) as nat)),
            ));
            done = done.push(range);
        }
        start = end;
    }
    proof {
        assert(done =~= all);
    }
    batches
}

/// The batches in which the cache is asked for `n_keys` keys: runs of at most
/// `batch_size` keys (7999 where none is given), in order, each with the
/// statement that binds its keys. No key, no batch.
pub fn plan_get_many(n_keys: usize, batch_size: Option<usize>) -> (batches: Vec<Batch>)
    requires
        batch_size != Some(0usize),
    ensures
        batch_views(batches@) == lookups(
            ranges(
                0,
                n_keys as nat,
                (match batch_size {
                    Some(n) => n,
                    None => BATCH_SIZE,
                }) as nat,
            ),
        ),
{
    let size = match batch_size {
        Some(n) => n,
        None => BATCH_SIZE,
    };
    plan(n_keys, size, false)
}

/// The batches in which `n_rows` rows are written: runs of at most 7999 rows,
/// in order, each with the statement that binds its rows. No row, no batch.
pub fn plan_set_many(n_rows: usize) -> (batches: Vec<Batch>)
    ensures
        batch_views(batches@) == writes(ranges(0, n_rows as nat, BATCH_SIZE as nat)),
{
    plan(n_rows, BATCH_SIZE, true)
}

/// Whether the answer to `ANY_ROW` says that the cache is empty; a missing
/// answer says so too.
pub fn is_empty(answer: Option<usize>) -> (r: bool)
    ensures
        r == (answer == None::<usize> || answer == Some(0usize)),
{
    match answer {
        Some(n) => n == 0,
        None => true,
    }
}

/// Whether `c` is a decimal digit.
pub open spec fn is_digit(c: char) -> bool {
    0x30 <= c as int <= 0x39
}

/// The first position from `i` on that holds no digit.
pub open spec fn digits_end(s: Seq<char>, i: int) -> int
    decreases s.len() - i,
{
    if 0 <= i < s.len() && is_digit(s[i]) {
        digits_end(s, i + 1)
    } else {
        i
    }
}

/// The number that a run of digits writes in decimal.
pub open spec fn value_of(digits: Seq<char>) -> nat
    decreases digits.len(),
{
    if digits.len() == 0 {
        0
    } else {
        (value_of(digits.drop_last()) * 10 + (digits.last() as int - 0x30)) as nat
    }
}

/// The number at `i`, and the position behind it: a run of digits without a
/// leading zero, unless it is the one digit `0`, that writes a number of 64
/// bits.
pub open spec fn read_number(s: Seq<char>, i: int) -> Option<(u64, int)> {
    let end = digits_end(s, i);
    if !(0 <= i < end <= s.len()) || (end > i + 1 && s[i] == '0') {
        None
    } else if value_of(s.subrange(i, end)) > u64::MAX {
        None
    } else {
        Some((value_of(s.subrange(i, end)) as u64, end))
    }
}

/// What the value of a member holds.
pub ghost enum Field {
    Text(Seq<char>),
    Number(u64),
    Hash(Seq<char>),
}

/// The identifier in the object at `i`, which has the one member `md5`, and
/// the position behind the object.
pub open spec fn read_hash(s: Seq<char>, i: int) -> Option<(Seq<char>, int)> {
    match expect(s, i, '{') {
        Some(j) => match read_string(s, skip_ws(s, j)) {
            Some((key, k)) => match expect(s, skip_ws(s, k), ':') {
                Some(m) => match read_string(s, skip_ws(s, m)) {
                    Some((oid, n)) => match expect(s, skip_ws(s, n), '}') {
                        Some(end) => if key == "md5"@ {
                            Some((oid, end))
                        } else {
                            None
                        },
                        None => None,
                    },
                    None => None,
                },
                None => None,
            },
            None => None,
        },
        None => None,
    }
}

/// The value at `i`: a string, an object with an identifier, or a number.
pub open spec fn read_field(s: Seq<char>, i: int) -> Option<(Field, int)> {
    if expect(s, i, '"') is Some {
        match read_string(s, i) {
            Some((text, end)) => Some((Field::Text(text), end)),
            None => None,
        }
    } else if expect(s, i, '{') is Some {
        match read_hash(s, i) {
            Some((oid, end)) => Some((Field::Hash(oid), end)),
            None => None,
        }
    } else {
        match read_number(s, i) {
            Some((n, end)) => Some((Field::Number(n), end)),
            None => None,
        }
    }
}

/// The member at `i`: its key, what its value holds, and the position behind
/// it.
pub open spec fn read_state_member(s: Seq<char>, i: int) -> Option<(Seq<char>, Field, int)> {
    match read_string(s, i) {
        Some((key, j)) => match expect(s, skip_ws(s, j), ':') {
            Some(k) => match read_field(s, skip_ws(s, k)) {
                Some((field, end)) => Some((key, field, end)),
                None => None,
            },
            None => None,
        },
        None => None,
    }
}

/// The value of the first of three members that has the key `key`.
pub open spec fn field_named(
    key: Seq<char>,
    first: (Seq<char>, Field, int),
    second: (Seq<char>, Field, int),
    third: (Seq<char>, Field, int),
) -> Option<Field> {
    if first.0 == key {
        Some(first.1)
    } else if second.0 == key {
        Some(second.1)
    } else if third.0 == key {
        Some(third.1)
    } else {
        None
    }
}

/// The cache value that three members make: a string `checksum`, a number
/// `size` and an object `hash_info`, in any order.
pub open spec fn state_from(
    first: (Seq<char>, Field, int),
    second: (Seq<char>, Field, int),
    third: (Seq<char>, Field, int),
) -> Option<StateValueView> {
    match (
        field_named("checksum"@, first, second, third),
        field_named("size"@, first, second, third),
        field_named("hash_info"@, first, second, third),
    ) {
        (Some(Field::Text(checksum)), Some(Field::Number(size)), Some(Field::Hash(oid))) => Some(
            StateValueView { checksum, size, oid },
        ),
        _ => None,
    }
}

/// The cache value in the object at `i`, and the position behind the object.
pub open spec fn read_state(s: Seq<char>, i: int) -> Option<(StateValueView, int)> {
    match expect(s, i, '{') {
        Some(a) => match read_state_member(s, skip_ws(s, a)) {
            Some(first) => match expect(s, skip_ws(s, first.2), ',') {
                Some(b) => match read_state_member(s, skip_ws(s, b)) {
                    Some(second) => match expect(s, skip_ws(s, second.2), ',') {
                        Some(c) => match read_state_member(s, skip_ws(s, c)) {
                            Some(third) => match (
                                state_from(first, second, third),
                                expect(s, skip_ws(s, third.2), '}'),
                            ) {
                                (Some(v), Some(end)) => Some((v, end)),
                                _ => None,
                            },
                            None => None,
                        },
                        None => None,
                    },
                    None => None,
                },
                None => None,
            },
            None => None,
        },
        None => None,
    }
}

/// The cache value that a JSON text holds; `None` for a text that holds
/// none. White space may stand between the tokens and around the object.
pub open spec fn decoded(s: Seq<char>) -> Option<StateValueView> {
    match read_state(s, skip_ws(s, 0)) {
        Some((v, end)) => if skip_ws(s, end) == s.len() {
            Some(v)
        } else {
            None
        },
        None => None,
    }
}

proof fn lemma_digits_end(s: Seq<char>, i: int, j: int)
    requires
        0 <= i <= j <= s.len(),
        forall|k: int| i <= k < j ==> is_digit(#[trigger] s[k]),
        j == s.len() || !is_digit(s[j]),
    ensures
        digits_end(s, i) == j,
    decreases j - i,
{
    if i < j {
        lemma_digits_end(s, i + 1, j);
    }
}

fn digit_value(c: char) -> (r: Option<u8>)
    ensures
        match r {
            Some(d) => is_digit(c) && d == c as int - 0x30,
            None => !is_digit(c),
        },
{
    let v = c as u32;
    if 0x30 <= v && v <= 0x39 {
        Some((v - 0x30) as u8)
    } else {
        None
    }
}

fn read_count(s: &Vec<char>, i: usize) -> (r: Option<(u64, usize)>)
    requires
        i <= s.len(),
    ensures
        match r {
            Some((n, end)) => read_number(s@, i as int) == Some((n, end as int)) && i < end
                <= s.len(),
            None => read_number(s@, i as int) is None,
        },
{
    let mut j = i;
    let mut acc: u64 = 0;
    let mut fits = true;
    loop
        invariant
            i <= j <= s.len(),
            forall|k: int| i <= k < j ==> is_digit(#[trigger] s@[k]),
            fits ==> acc == value_of(s@.subrange(i as int, j as int)),
            !fits ==> value_of(s@.subrange(i as int, j as int)) > u64::MAX,
        ensures
            j == s.len() || !is_digit(s@[j as int]),
        decreases s.len() - j,
    {
        if j >= s.len() {
            break ;
        }
        let d = match digit_value(s[j]) {
            Some(d) => d,
            None => {
                break ;
            },
        };
        proof {
            let run = s@.subrange(i as int, j + 1);
            assert(run.drop_last() =~= s@.subrange(i as int, j as int));
            assert(run.last() == s@[j as int]);
        }
        if fits {
            if acc > (u64::MAX - d as u64) / 10 {
                fits = false;
            } else {
                acc = acc * 10 + d as u64;
            }
        }
        j += 1;
    }
    proof {
        lemma_digits_end(s@, i as int, j as int);
    }
    if j == i || (j - i > 1 && s[i] == '0') || !fits {
        None
    } else {
        Some((acc, j))
    }
}

/// What the value of a member holds.
enum Item {
    Text(String),
    Number(u64),
    Hash(String),
}

impl View for Item {
    type V = Field;

    closed spec fn view(&self) -> Field {
        match self {
            Item::Text(t) => Field::Text(t@),
            Item::Number(n) => Field::Number(*n),
            Item::Hash(h) => Field::Hash(h@),
        }
    }
}

fn read_hash_info(s: &Vec<char>, i: usize) -> (r: Option<(String, usize)>)
    requires
        i <= s.len(),
    ensures
        match r {
            Some((oid, end)) => read_hash(s@, i as int) == Some((oid@, end as int)) && i < end
                <= s.len(),
            None => read_hash(s@, i as int) is None,
        },
{
    let j = match take(s, i, '{') {
        Some(j) => j,
        None => {
            return None;
        },
    };
    let (key, k) = match read_str(s, skip_spaces(s, j)) {
        Some(r) => r,
        None => {
            return None;
        },
    };
    let m = match take(s, skip_spaces(s, k), ':') {
        Some(m) => m,
        None => {
            return None;
        },
    };
    let (oid, n) = match read_str(s, skip_spaces(s, m)) {
        Some(r) => r,
        None => {
            return None;
        },
    };
    match take(s, skip_spaces(s, n), '}') {
        Some(end) => {
            if same(key.as_str(), "md5") {
                Some((oid, end))
            } else {
                None
            }
        },
        None => None,
    }
}

fn read_item(s: &Vec<char>, i: usize) -> (r: Option<(Item, usize)>)
    requires
        i <= s.len(),
    ensures
        match r {
            Some((item, end)) => read_field(s@, i as int) == Some((item@, end as int)) && i < end
                <= s.len(),
            None => read_field(s@, i as int) is None,
        },
{
    if take(s, i, '"').is_some() {
        match read_str(s, i) {
            Some((text, end)) => Some((Item::Text(text), end)),
            None => None,
        }
    } else if take(s, i, '{').is_some() {
        match read_hash_info(s, i) {
            Some((oid, end)) => Some((Item::Hash(oid), end)),
            None => None,
        }
    } else {
        match read_count(s, i) {
            Some((n, end)) => Some((Item::Number(n), end)),
            None => None,
        }
    }
}

fn read_state_pair(s: &Vec<char>, i: usize) -> (r: Option<(String, Item, usize)>)
    requires
        i <= s.len(),
    ensures
        match r {
            Some((key, item, end)) => read_state_member(s@, i as int) == Some(
                (key@, item@, end as int),
            ) && i < end <= s.len(),
            None => read_state_member(s@, i as int) is None,
        },
{
    let (key, j) = match read_str(s, i) {
        Some(r) => r,
        None => {
            return None;
        },
    };
    let k = match take(s, skip_spaces(s, j), ':') {
        Some(k) => k,
        None => {
            return None;
        },
    };
    match read_item(s, skip_spaces(s, k)) {
        Some((item, end)) => Some((key, item, end)),
        None => None,
    }
}

fn pick<'a>(
    key: &str,
    first: &'a (String, Item, usize),
    second: &'a (String, Item, usize),
    third: &'a (String, Item, usize),
) -> (r: Option<&'a Item>)
    ensures
        match r {
            Some(item) => field_named(
                key@,
                (first.0@, first.1@, first.2 as int),
                (second.0@, second.1@, second.2 as int),
                (third.0@, third.1@, third.2 as int),
            ) == Some(item@),
            None => field_named(
                key@,
                (first.0@, first.1@, first.2 as int),
                (second.0@, second.1@, second.2 as int),
                (third.0@, third.1@, third.2 as int),
            ) is None,
        },
{
    if same(first.0.as_str(), key) {
        Some(&first.1)
    } else if same(second.0.as_str(), key) {
        Some(&second.1)
    } else if same(third.0.as_str(), key) {
        Some(&third.1)
    } else {
        None
    }
}

fn read_value(s: &Vec<char>, i: usize) -> (r: Option<(StateValue, usize)>)
    requires
        i <= s.len(),
    ensures
        match r {
            Some((v, end)) => read_state(s@, i as int) == Some((v@, end as int)) && end <= s.len(),
            None => read_state(s@, i as int) is None,
        },
{
    let a = match take(s, i, '{') {
        Some(a) => a,
        None => {
            return None;
        },
    };
    let first = match read_state_pair(s, skip_spaces(s, a)) {
        Some(m) => m,
        None => {
            return None;
        },
    };
    let b = match take(s, skip_spaces(s, first.2), ',') {
        Some(b) => b,
        None => {
            return None;
        },
    };
    let second = match read_state_pair(s, skip_spaces(s, b)) {
        Some(m) => m,
        None => {
            return None;
        },
    };
    let c = match take(s, skip_spaces(s, second.2), ',') {
        Some(c) => c,
        None => {
            return None;
        },
    };
    let third = match read_state_pair(s, skip_spaces(s, c)) {
        Some(m) => m,
        None => {
            return None;
        },
    };
    let end = match take(s, skip_spaces(s, third.2), '}') {
        Some(end) => end,
        None => {
            return None;
        },
    };
    let checksum = match pick("checksum", &first, &second, &third) {
        Some(Item::Text(t)) => t.clone(),
        _ => {
            return None;
        },
    };
    let size = match pick("size", &first, &second, &third) {
        Some(Item::Number(n)) => *n,
        _ => {
            return None;
        },
    };
    let oid = match pick("hash_info", &first, &second, &third) {
        Some(Item::Hash(h)) => h.clone(),
        _ => {
            return None;
        },
    };
    Some((StateValue { checksum, size, hash_info: StateHash { oid } }, end))
}

impl StateValue {
    /// Reads a cache value from the JSON text under which it is stored;
    /// `None` for a text that holds no cache value.
    pub fn from_json(text: &str) -> (r: Option<StateValue>)
        ensures
            match r {
                Some(v) => decoded(text@) == Some(v@),
                None => decoded(text@) is None,
            },
    {
        let s = chars_of(text);
        match read_value(&s, skip_spaces(&s, 0)) {
            Some((v, end)) => {
                if skip_spaces(&s, end) == s.len() {
                    Some(v)
                } else {
                    None
                }
            },
            None => None,
        }
    }
}

proof fn lemma_digit_code(d: int)
    requires
        0 <= d < 10,
    ensures
        digit(d) as int == 0x30 + d,
{
}

/// The decimal numeral of a number is a run of digits that writes the
/// number, and starts with `0` only for zero.
proof fn lemma_decimal_digits(n: nat)
    ensures
        decimal(n).len() >= 1,
        forall|k: int| 0 <= k < decimal(n).len() ==> is_digit(#[trigger] decimal(n)[k]),
        value_of(decimal(n)) == n,
        decimal(n)[0] == '0' ==> n == 0,
        n == 0 ==> decimal(n).len() == 1,
    decreases n,
{
    let d = decimal(n);
    if n < 10 {
        lemma_digit_code(n as int);
        assert(d =~= seq![digit(n as int)]);
        assert(d.drop_last() =~= Seq::<char>::empty());
        assert(value_of(d.drop_last()) == 0);
    } else {
        let front = decimal(n / 10);
        lemma_decimal_digits(n / 10);
        lemma_digit_code((n % 10) as int);
        assert(d == front.push(digit((n % 10) as int)));
        assert(d.drop_last() =~= front);
        assert(d[0] == front[0]);
        assert forall|k: int| 0 <= k < d.len() implies is_digit(#[trigger] d[k]) by {
            if k < front.len() {
                assert(d[k] == front[k]);
            }
        }
    }
}

/// The numeral that `decimal` writes for a number of 64 bits, `read_number`
/// reads as that number, provided no digit follows it.
proof fn lemma_read_decimal(s: Seq<char>, i: int, n: u64, rest: Seq<char>)
    requires
        holds(s, i, decimal(n as nat) + rest),
        rest.len() > 0,
        !is_digit(rest[0]),
    ensures
        read_number(s, i) == Some((n, i + decimal(n as nat).len())),
        is_digit(s[i]),
        holds(s, i + decimal(n as nat).len(), rest),
{
    let d = decimal(n as nat);
    let end: int = i + d.len();
    lemma_decimal_digits(n as nat);
    lemma_holds_split(s, i, d, rest);
    lemma_holds_char(s, end, rest, 0);
    assert forall|k: int| i <= k < end implies is_digit(#[trigger] s[k]) by {
        lemma_holds_char(s, i, d, k - i);
    }
    lemma_digits_end(s, i, end);
    lemma_holds_char(s, i, d, 0);
}

/// The pieces of the JSON of a cache value.
#[verifier::rlimit(40)]
proof fn lemma_state_shape(v: StateValueView)
    ensures
        plain("checksum"@),
        plain("size"@),
        plain("hash_info"@),
        plain("md5"@),
        state_json(v) == seq!['{'] + (quoted("checksum"@) + (seq![':'] + (quoted(v.checksum) + (seq![
            ',',
        ] + (quoted("size"@) + (seq![':'] + (decimal(v.size as nat) + (seq![','] + (quoted(
            "hash_info"@,
        ) + (seq![':'] + (seq!['{'] + (quoted("md5"@) + (seq![':'] + (quoted(v.oid) + seq![
            '}',
            '}',
        ])))))))))))))),
{
    reveal(state_json);
    reveal_strlit("checksum");
    reveal_strlit("size");
    reveal_strlit("hash_info");
    reveal_strlit("md5");
    reveal_strlit("{\"checksum\":");
    reveal_strlit(",\"size\":");
    reveal_strlit(",\"hash_info\":{\"md5\":");
    reveal_strlit("}}");
    let k1 = "checksum"@;
    let k2 = "size"@;
    let k3 = "hash_info"@;
    let k4 = "md5"@;
    assert(plain(k1)) by {
        assert forall|k: int| 0 <= k < k1.len() implies escaped_char(#[trigger] k1[k]) == seq![
            k1[k],
        ] by {
            assert(k1[k] == 'c' || k1[k] == 'h' || k1[k] == 'e' || k1[k] == 'k' || k1[k] == 's'
                || k1[k] == 'u' || k1[k] == 'm');
        }
    }
    assert(plain(k2)) by {
        assert forall|k: int| 0 <= k < k2.len() implies escaped_char(#[trigger] k2[k]) == seq![
            k2[k],
        ] by {
            assert(k2[k] == 's' || k2[k] == 'i' || k2[k] == 'z' || k2[k] == 'e');
        }
    }
    assert(plain(k3)) by {
        assert forall|k: int| 0 <= k < k3.len() implies escaped_char(#[trigger] k3[k]) == seq![
            k3[k],
        ] by {
            assert(k3[k] == 'h' || k3[k] == 'a' || k3[k] == 's' || k3[k] == '_' || k3[k] == 'i'
                || k3[k] == 'n' || k3[k] == 'f' || k3[k] == 'o');
        }
    }
    assert(plain(k4)) by {
        assert forall|k: int| 0 <= k < k4.len() implies escaped_char(#[trigger] k4[k]) == seq![
            k4[k],
        ] by {
            assert(k4[k] == 'm' || k4[k] == 'd' || k4[k] == '5');
        }
    }
    lemma_escaped_plain(k1);
    lemma_escaped_plain(k2);
    lemma_escaped_plain(k3);
    lemma_escaped_plain(k4);
    assert("{\"checksum\":"@ =~= seq!['{'] + quoted(k1) + seq![':']);
    assert(",\"size\":"@ =~= seq![','] + quoted(k2) + seq![':']);
    assert(",\"hash_info\":{\"md5\":"@ =~= seq![','] + quoted(k3) + seq![':'] + seq!['{'] + quoted(
        k4,
    ) + seq![':']);
    assert("}}"@ =~= seq!['}', '}']);
    assert(state_json(v) =~= seq!['{'] + (quoted(k1) + (seq![':'] + (quoted(v.checksum) + (seq![
        ',',
    ] + (quoted(k2) + (seq![':'] + (decimal(v.size as nat) + (seq![','] + (quoted(k3) + (seq![
        ':',
    ] + (seq!['{'] + (quoted(k4) + (seq![':'] + (quoted(v.oid) + seq!['}', '}'])))))))))))))));
}

/// A key with its colon, as the cache value is written: `read_string` reads
/// the key, and the value follows at once.
#[verifier::rlimit(40)]
proof fn lemma_read_written_key(s: Seq<char>, i: int, key: Seq<char>, rest: Seq<char>)
    requires
        holds(s, i, quoted(key) + (seq![':'] + rest)),
        rest.len() > 0,
        rest[0] == '"' || rest[0] == '{' || is_digit(rest[0]),
    ensures
        read_string(s, i) == Some((key, i + quoted(key).len())),
        expect(s, skip_ws(s, i + quoted(key).len()), ':') == Some(i + quoted(key).len() + 1),
        skip_ws(s, i + quoted(key).len() + 1) == i + quoted(key).len() + 1,
        holds(s, i + quoted(key).len() + 1, rest),
        s[i] == '"',
{
    let colon = seq![':'];
    lemma_holds_split(s, i, quoted(key), colon + rest);
    lemma_read_quoted(s, i, key);
    let j: int = i + quoted(key).len();
    lemma_holds_split(s, j, colon, rest);
    lemma_holds_char(s, j, colon, 0);
    lemma_holds_char(s, j + 1, rest, 0);
    assert(skip_ws(s, j) == j);
    assert(skip_ws(s, j + 1) == j + 1);
}

/// The object of the identifier, as the cache value is written, `read_hash`
/// reads as the identifier.
#[verifier::rlimit(40)]
proof fn lemma_read_written_hash(s: Seq<char>, i: int, oid: Seq<char>, rest: Seq<char>)
    requires
        plain("md5"@),
        holds(s, i, seq!['{'] + (quoted("md5"@) + (seq![':'] + (quoted(oid) + (seq!['}'] + rest))))),
    ensures
        read_hash(s, i) == Some((oid, i + 1 + quoted("md5"@).len() + 1 + quoted(oid).len() + 1)),
        holds(s, i + 1 + quoted("md5"@).len() + 1 + quoted(oid).len() + 1, rest),
        s[i] == '{',
{
    let key = "md5"@;
    let close = seq!['}'];
    let value = quoted(oid) + (close + rest);
    lemma_holds_split(s, i, seq!['{'], quoted(key) + (seq![':'] + value));
    lemma_holds_char(s, i, seq!['{'], 0);
    lemma_holds_split(s, i + 1, quoted(key), seq![':'] + value);
    lemma_holds_split(s, i + 1 + quoted(key).len(), seq![':'], value);
    lemma_holds_split(s, i + 1 + quoted(key).len() + 1, quoted(oid), close + rest);
    lemma_read_quoted(s, i + 1 + quoted(key).len() + 1, oid);
    lemma_read_written_key(s, i + 1, key, value);
    assert(skip_ws(s, i + 1) == i + 1);
    let j: int = i + 1 + quoted(key).len() + 1 + quoted(oid).len();
    lemma_holds_split(s, j, close, rest);
    lemma_holds_char(s, j, close, 0);
    assert(skip_ws(s, j) == j);
}

proof fn lemma_read_text_member(
    s: Seq<char>,
    i: int,
    key: Seq<char>,
    value: Seq<char>,
    rest: Seq<char>,
)
    requires
        holds(s, i, quoted(key) + (seq![':'] + (quoted(value) + rest))),
    ensures
        read_state_member(s, i) == Some(
            (key, Field::Text(value), i + quoted(key).len() + 1 + quoted(value).len()),
        ),
        holds(s, i + quoted(key).len() + 1 + quoted(value).len(), rest),
        skip_ws(s, i) == i,
{
    assert((quoted(value) + rest)[0] == '"');
    lemma_read_written_key(s, i, key, quoted(value) + rest);
    let p: int = i + quoted(key).len() + 1;
    lemma_holds_split(s, p, quoted(value), rest);
    lemma_read_quoted(s, p, value);
}

proof fn lemma_read_number_member(s: Seq<char>, i: int, key: Seq<char>, n: u64, rest: Seq<char>)
    requires
        holds(s, i, quoted(key) + (seq![':'] + (decimal(n as nat) + rest))),
        rest.len() > 0,
        !is_digit(rest[0]),
    ensures
        read_state_member(s, i) == Some(
            (key, Field::Number(n), i + quoted(key).len() + 1 + decimal(n as nat).len()),
        ),
        holds(s, i + quoted(key).len() + 1 + decimal(n as nat).len(), rest),
        skip_ws(s, i) == i,
{
    lemma_decimal_digits(n as nat);
    assert((decimal(n as nat) + rest)[0] == decimal(n as nat)[0]);
    lemma_read_written_key(s, i, key, decimal(n as nat) + rest);
    let p: int = i + quoted(key).len() + 1;
    lemma_read_decimal(s, p, n, rest);
}

#[verifier::rlimit(40)]
proof fn lemma_read_hash_member(
    s: Seq<char>,
    i: int,
    key: Seq<char>,
    oid: Seq<char>,
    rest: Seq<char>,
)
    requires
        plain("md5"@),
        holds(
            s,
            i,
            quoted(key) + (seq![':'] + (seq!['{'] + (quoted("md5"@) + (seq![':'] + (quoted(oid)
                + (seq!['}'] + rest)))))),
        ),
    ensures
        read_state_member(s, i) == Some(
            (
                key,
                Field::Hash(oid),
                i + quoted(key).len() + 1 + 1 + quoted("md5"@).len() + 1 + quoted(oid).len() + 1,
            ),
        ),
        holds(
            s,
            i + quoted(key).len() + 1 + 1 + quoted("md5"@).len() + 1 + quoted(oid).len() + 1,
            rest,
        ),
        skip_ws(s, i) == i,
{
    let hash = seq!['{'] + (quoted("md5"@) + (seq![':'] + (quoted(oid) + (seq!['}'] + rest))));
    assert(hash[0] == '{');
    lemma_read_written_key(s, i, key, hash);
    let p: int = i + quoted(key).len() + 1;
    lemma_read_written_hash(s, p, oid, rest);
}

proof fn lemma_read_comma(s: Seq<char>, i: int, rest: Seq<char>)
    requires
        holds(s, i, seq![','] + rest),
    ensures
        expect(s, skip_ws(s, i), ',') == Some(i + 1),
        holds(s, i + 1, rest),
{
    lemma_holds_split(s, i, seq![','], rest);
    lemma_holds_char(s, i, seq![','], 0);
    assert(skip_ws(s, i) == i);
}

/// The three members of a cache value, as they are written, `read_state`
/// reads as that value.
#[verifier::rlimit(40)]
proof fn lemma_read_written_state(s: Seq<char>, v: StateValueView)
    requires
        s == state_json(v),
    ensures
        read_state(s, 0) == Some((v, s.len() as int)),
{
    lemma_state_shape(v);
    let k1 = "checksum"@;
    let k2 = "size"@;
    let k3 = "hash_info"@;
    let k4 = "md5"@;
    let comma = seq![','];
    let colon = seq![':'];
    let close = seq!['}'];
    let number = decimal(v.size as nat);
    let third = quoted(k3) + (colon + (seq!['{'] + (quoted(k4) + (colon + (quoted(v.oid) + (close
        + close))))));
    let second = quoted(k2) + (colon + (number + (comma + third)));
    let first = quoted(k1) + (colon + (quoted(v.checksum) + (comma + second)));
    assert(close + close =~= seq!['}', '}']);
    assert(s == seq!['{'] + first);
    assert(holds(s, 0, seq!['{'] + first)) by {
        assert(s.subrange(0, s.len() as int) =~= s);
    }
    lemma_holds_split(s, 0, seq!['{'], first);
    lemma_holds_char(s, 0, seq!['{'], 0);
    lemma_read_text_member(s, 1, k1, v.checksum, comma + second);
    let e1: int = 1int + quoted(k1).len() + 1 + quoted(v.checksum).len();
    lemma_read_comma(s, e1, second);
    lemma_read_number_member(s, e1 + 1, k2, v.size, comma + third);
    let e2: int = e1 + 1 + quoted(k2).len() + 1 + number.len();
    lemma_read_comma(s, e2, third);
    lemma_read_hash_member(s, e2 + 1, k3, v.oid, close);
    let e3: int = e2 + 1 + quoted(k3).len() + 1 + 1 + quoted(k4).len() + 1 + quoted(v.oid).len()
        + 1;
    lemma_holds_char(s, e3, close, 0);
    assert(skip_ws(s, e3) == e3);
    assert(e3 + 1 == s.len());
    lemma_keys_differ();
    let m1 = (k1, Field::Text(v.checksum), e1);
    let m2 = (k2, Field::Number(v.size), e2);
    let m3 = (k3, Field::Hash(v.oid), e3);
    assert(state_from(m1, m2, m3) == Some(v));
    assert(expect(s, 0, '{') == Some(1int));
    assert(read_state_member(s, skip_ws(s, 1)) == Some(m1));
    assert(read_state_member(s, skip_ws(s, e1 + 1)) == Some(m2));
    assert(read_state_member(s, skip_ws(s, e2 + 1)) == Some(m3));
}

proof fn lemma_keys_differ()
    ensures
        "checksum"@ != "size"@,
        "checksum"@ != "hash_info"@,
        "size"@ != "hash_info"@,
{
    reveal_strlit("checksum");
    reveal_strlit("size");
    reveal_strlit("hash_info");
    assert("checksum"@.len() == 8 && "size"@.len() == 4 && "hash_info"@.len() == 9);
}

/// Reading what was written gives back what was written: the JSON that is
/// stored for a cache value is read as that value.
pub proof fn lemma_state_round_trip(v: StateValueView)
    ensures
        decoded(state_json(v)) == Some(v),
{
    let s = state_json(v);
    lemma_read_written_state(s, v);
    lemma_state_shape(v);
    assert(s[0] == '{');
    assert(skip_ws(s, 0) == 0);
    assert(skip_ws(s, s.len() as int) == s.len());
}

} // verus!
