//! The persistence codec: a store is saved as one JSON document holding an
//! object whose `"tasks"` field maps each id to its task, and loaded back by
//! a parser of exactly that shape.
//!
//! The document a save produces is canonical: entries stand in ascending id
//! order, each task carries its five attributes in a fixed order, and the
//! only escapes in a description are `\"` and `\\`.  The parser accepts the
//! canonical form (and rejects everything else as a parse failure), checks
//! that each entry's key equals the id inside it, that ids ascend, and that
//! the timestamps of a task are in creation order.  Saving and then loading
//! is proved to give the store back unchanged.

use vstd::prelude::*;
use vstd::seq_lib::lemma_concat_associative;

use crate::errors::ResponseError;
use crate::numbers::{
    is_digit, lemma_digits_val_of_spec_digits, lemma_spec_digits_shape,
    lemma_take_digits_of_concat, push_digits, scan_u64, spec_digits, spec_parse_u64,
};
use crate::store::{ids_ascending, store_wf, tasks_valid, TaskStore};
use crate::task::{Task, TaskSpec, TaskStatus};
use crate::text::string_from_chars;

verus! {

// ---------------------------------------------------------------------------
// The fixed pieces of the document.
// ---------------------------------------------------------------------------
pub open spec fn lit_store_open() -> Seq<char> {
    "{\"tasks\":{"@
}

pub open spec fn lit_store_close() -> Seq<char> {
    "}}"@
}

pub open spec fn lit_task_open() -> Seq<char> {
    "{\"id\":"@
}

pub open spec fn lit_desc() -> Seq<char> {
    ",\"description\":\""@
}

pub open spec fn lit_status() -> Seq<char> {
    ",\"status\":\""@
}

pub open spec fn lit_created() -> Seq<char> {
    "\",\"created_at\":"@
}

pub open spec fn lit_updated() -> Seq<char> {
    ",\"updated_at\":"@
}

pub open spec fn status_name(st: TaskStatus) -> Seq<char> {
    match st {
        TaskStatus::New => "New"@,
        TaskStatus::InProgress => "InProgress"@,
        TaskStatus::Done => "Done"@,
    }
}

// ---------------------------------------------------------------------------
// Encoding.
// ---------------------------------------------------------------------------
/// A description character in the document: quote and backslash get a
/// backslash escape, everything else stands as itself.
pub open spec fn escape_char(c: char) -> Seq<char> {
    if c == '"' || c == '\\' {
        seq!['\\', c]
    } else {
        seq![c]
    }
}

/// A description, escaped, without the surrounding quotes.
pub open spec fn spec_encode_text(s: Seq<char>) -> Seq<char>
    decreases s.len(),
{
    if s.len() == 0 {
        Seq::empty()
    } else {
        escape_char(s[0]) + spec_encode_text(s.drop_first())
    }
}

/// One task object.  (The concatenation nests to the right, which keeps the
/// round-trip proof to plain uses of associativity.)
pub open spec fn spec_encode_task(t: TaskSpec) -> Seq<char> {
    lit_task_open() + (spec_digits(t.id as nat) + (lit_desc() + (spec_encode_text(t.description)
        + (seq!['"'] + (lit_status() + (status_name(t.status) + (lit_created() + (spec_digits(
        t.created_at as nat,
    ) + (lit_updated() + (spec_digits(t.updated_at as nat) + seq!['}']))))))))))
}

/// One map entry: the id as key, then the task object.
pub open spec fn spec_encode_entry(t: TaskSpec) -> Seq<char> {
    seq!['"'] + (spec_digits(t.id as nat) + (seq!['"', ':'] + spec_encode_task(t)))
}

/// All entries, comma-separated.
pub open spec fn spec_encode_entries(s: Seq<TaskSpec>) -> Seq<char>
    decreases s.len(),
{
    if s.len() == 0 {
        Seq::empty()
    } else if s.len() == 1 {
        spec_encode_entry(s[0])
    } else {
        spec_encode_entry(s[0]) + (seq![','] + spec_encode_entries(s.drop_first()))
    }
}

/// The whole document of a store.
pub open spec fn spec_encode_store(s: Seq<TaskSpec>) -> Seq<char> {
    lit_store_open() + (spec_encode_entries(s) + lit_store_close())
}

// ---------------------------------------------------------------------------
// Parsing.  Each parser consumes a prefix and yields the rest.
// ---------------------------------------------------------------------------
/// Consumes `lit` from the front of `s`, or nothing.
pub open spec fn spec_expect(s: Seq<char>, lit: Seq<char>) -> Option<Seq<char>> {
    if lit.len() <= s.len() && s.take(lit.len() as int) == lit {
        Some(s.skip(lit.len() as int))
    } else {
        None
    }
}

/// Consumes an escaped description body and its closing quote.
pub open spec fn spec_parse_text(s: Seq<char>) -> Option<(Seq<char>, Seq<char>)>
    decreases s.len(),
{
    if s.len() == 0 {
        None
    } else if s[0] == '"' {
        Some((Seq::empty(), s.drop_first()))
    } else if s[0] == '\\' {
        if s.len() >= 2 && (s[1] == '"' || s[1] == '\\') {
            match spec_parse_text(s.skip(2)) {
                Some((t, r)) => Some((seq![s[1]] + t, r)),
                None => None,
            }
        } else {
            None
        }
    } else {
        match spec_parse_text(s.drop_first()) {
            Some((t, r)) => Some((seq![s[0]] + t, r)),
            None => None,
        }
    }
}

/// Consumes one of the three status names.
pub open spec fn spec_parse_status(s: Seq<char>) -> Option<(TaskStatus, Seq<char>)> {
    if spec_expect(s, status_name(TaskStatus::New)) is Some {
        Some((TaskStatus::New, spec_expect(s, status_name(TaskStatus::New))->0))
    } else if spec_expect(s, status_name(TaskStatus::InProgress)) is Some {
        Some((TaskStatus::InProgress, spec_expect(s, status_name(TaskStatus::InProgress))->0))
    } else if spec_expect(s, status_name(TaskStatus::Done)) is Some {
        Some((TaskStatus::Done, spec_expect(s, status_name(TaskStatus::Done))->0))
    } else {
        None
    }
}

/// Consumes one task object; its timestamps must be in creation order.
pub open spec fn spec_parse_task(s: Seq<char>) -> Option<(TaskSpec, Seq<char>)> {
    match spec_expect(s, lit_task_open()) {
        None => None,
        Some(s1) => match spec_parse_u64(s1) {
            None => None,
            Some((id, s2)) => match spec_expect(s2, lit_desc()) {
                None => None,
                Some(s3) => match spec_parse_text(s3) {
                    None => None,
                    Some((description, s4)) => match spec_expect(s4, lit_status()) {
                        None => None,
                        Some(s5) => match spec_parse_status(s5) {
                            None => None,
                            Some((status, s6)) => match spec_expect(s6, lit_created()) {
                                None => None,
                                Some(s7) => match spec_parse_u64(s7) {
                                    None => None,
                                    Some((created_at, s8)) => match spec_expect(s8, lit_updated()) {
                                        None => None,
                                        Some(s9) => match spec_parse_u64(s9) {
                                            None => None,
                                            Some((updated_at, s10)) => match spec_expect(
                                                s10,
                                                seq!['}'],
                                            ) {
                                                None => None,
                                                Some(s11) => if created_at <= updated_at {
                                                    Some(
                                                        (
                                                            TaskSpec {
                                                                id,
                                                                description,
                                                                status,
                                                                created_at,
                                                                updated_at,
                                                            },
                                                            s11,
                                                        ),
                                                    )
                                                } else {
                                                    None
                                                },
                                            },
                                        },
                                    },
                                },
                            },
                        },
                    },
                },
            },
        },
    }
}

/// Consumes one entry; the key must repeat the id inside the task.
pub open spec fn spec_parse_entry(s: Seq<char>) -> Option<(TaskSpec, Seq<char>)> {
    match spec_expect(s, seq!['"']) {
        None => None,
        Some(s1) => match spec_parse_u64(s1) {
            None => None,
            Some((key, s2)) => match spec_expect(s2, seq!['"', ':']) {
                None => None,
                Some(s3) => match spec_parse_task(s3) {
                    None => None,
                    Some((t, s4)) => if t.id == key {
                        Some((t, s4))
                    } else {
                        None
                    },
                },
            },
        },
    }
}

/// Consumes a non-empty, comma-separated entry list whose ids strictly
/// ascend and all exceed `prev`.
pub open spec fn spec_parse_entries(s: Seq<char>, prev: u64) -> Option<(Seq<TaskSpec>, Seq<char>)>
    decreases s.len(),
{
    match spec_parse_entry(s) {
        None => None,
        Some((t, r)) => if t.id <= prev {
            None
        } else if r.len() > 0 && r[0] == ',' {
            let r2 = r.drop_first();
            if r2.len() < s.len() {
                match spec_parse_entries(r2, t.id) {
                    Some((ts, r3)) => Some((seq![t] + ts, r3)),
                    None => None,
                }
            } else {
                None
            }
        } else {
            Some((seq![t], r))
        },
    }
}

/// The whole document: its store contents, if it has the canonical shape.
pub open spec fn spec_parse_store(s: Seq<char>) -> Option<Seq<TaskSpec>> {
    match spec_expect(s, lit_store_open()) {
        None => None,
        Some(s1) => if s1.len() > 0 && s1[0] == '"' {
            match spec_parse_entries(s1, 0) {
                None => None,
                Some((ts, r)) => match spec_expect(r, lit_store_close()) {
                    Some(r2) => if r2.len() == 0 {
                        Some(ts)
                    } else {
                        None
                    },
                    None => None,
                },
            }
        } else {
            match spec_expect(s1, lit_store_close()) {
                Some(r2) => if r2.len() == 0 {
                    Some(Seq::<TaskSpec>::empty())
                } else {
                    None
                },
                None => None,
            }
        },
    }
}

// ---------------------------------------------------------------------------
// What parsing guarantees of its result.
// ---------------------------------------------------------------------------
/// A parsed entry list is strictly ascending, above `prev`, and each task
/// has timestamps in creation order.
pub proof fn lemma_parse_entries_wf(s: Seq<char>, prev: u64)
    requires
        spec_parse_entries(s, prev) is Some,
    ensures
        ({
            let ts = (spec_parse_entries(s, prev)->0).0;
            &&& ts.len() >= 1
            &&& forall|i: int| 0 <= i < ts.len() ==> prev < #[trigger] ts[i].id
            &&& ids_ascending(ts)
            &&& tasks_valid(ts)
        }),
    decreases s.len(),
{
    let (t, r) = spec_parse_entry(s)->0;
    let result = (spec_parse_entries(s, prev)->0).0;
    if !(r.len() > 0 && r[0] == ',') {
        assert(result =~= seq![t]);
    } else {
        let r2 = r.drop_first();
        lemma_parse_entries_wf(r2, t.id);
        let ts = (spec_parse_entries(r2, t.id)->0).0;
        assert(result =~= seq![t] + ts);
        assert(forall|i: int| 1 <= i < result.len() ==> result[i] == ts[i - 1]);
        assert(result[0] == t);
    }
}

// ---------------------------------------------------------------------------
// Round trip: parsing what was encoded gives the store back.
// ---------------------------------------------------------------------------
proof fn lemma_expect_of_concat(lit: Seq<char>, rest: Seq<char>)
    ensures
        spec_expect(lit + rest, lit) == Some(rest),
{
    assert((lit + rest).take(lit.len() as int) =~= lit);
    assert((lit + rest).skip(lit.len() as int) =~= rest);
}

proof fn lemma_parse_u64_of_digits(n: u64, rest: Seq<char>)
    requires
        rest.len() == 0 || !is_digit(rest[0]),
    ensures
        spec_parse_u64(spec_digits(n as nat) + rest) == Some((n, rest)),
{
    lemma_spec_digits_shape(n as nat);
    lemma_take_digits_of_concat(spec_digits(n as nat), rest);
    lemma_digits_val_of_spec_digits(n as nat);
}

proof fn lemma_parse_text_of_encoded(d: Seq<char>, rest: Seq<char>)
    ensures
        spec_parse_text(spec_encode_text(d) + seq!['"'] + rest) == Some((d, rest)),
    decreases d.len(),
{
    let s = spec_encode_text(d) + seq!['"'] + rest;
    if d.len() == 0 {
        assert(s =~= seq!['"'] + rest);
        assert(s[0] == '"');
        assert(s.drop_first() =~= rest);
        assert(Seq::<char>::empty() =~= (spec_parse_text(s)->0).0);
    } else {
        let c = d[0];
        let tail = d.drop_first();
        lemma_parse_text_of_encoded(tail, rest);
        if c == '"' || c == '\\' {
            assert(s =~= seq!['\\', c] + (spec_encode_text(tail) + seq!['"'] + rest));
            assert(s[0] == '\\');
            assert(s[1] == c);
            assert(s.skip(2) =~= spec_encode_text(tail) + seq!['"'] + rest);
            assert(seq![c] + tail =~= d);
        } else {
            assert(s =~= seq![c] + (spec_encode_text(tail) + seq!['"'] + rest));
            assert(s[0] == c);
            assert(s.drop_first() =~= spec_encode_text(tail) + seq!['"'] + rest);
            assert(seq![c] + tail =~= d);
        }
    }
}

proof fn lemma_parse_status_of_name(st: TaskStatus, rest: Seq<char>)
    ensures
        spec_parse_status(status_name(st) + rest) == Some((st, rest)),
{
    reveal_strlit("New");
    reveal_strlit("InProgress");
    reveal_strlit("Done");
    let s = status_name(st) + rest;
    lemma_expect_of_concat(status_name(st), rest);
    match st {
        TaskStatus::New => {
            assert(s[0] == 'N');
            assert(spec_expect(s, status_name(TaskStatus::New)) == Some(rest));
        },
        TaskStatus::InProgress => {
            assert(s[0] == 'I');
            assert(spec_expect(s, status_name(TaskStatus::New)) is None);
            assert(spec_expect(s, status_name(TaskStatus::InProgress)) == Some(rest));
        },
        TaskStatus::Done => {
            assert(s[0] == 'D');
            assert(spec_expect(s, status_name(TaskStatus::New)) is None);
            assert(spec_expect(s, status_name(TaskStatus::InProgress)) is None);
            assert(spec_expect(s, status_name(TaskStatus::Done)) == Some(rest));
        },
    }
}

#[verifier::spinoff_prover]
proof fn lemma_parse_task_of_encoded(t: TaskSpec, rest: Seq<char>)
    requires
        t.created_at <= t.updated_at,
    ensures
        spec_parse_task(spec_encode_task(t) + rest) == Some((t, rest)),
{
    reveal_strlit(",\"description\":\"");
    reveal_strlit(",\"status\":\"");
    reveal_strlit("\",\"created_at\":");
    reveal_strlit(",\"updated_at\":");
    let close = seq!['}'];
    let u10 = spec_digits(t.updated_at as nat) + close;
    let u9 = lit_updated() + u10;
    let u8 = spec_digits(t.created_at as nat) + u9;
    let u7 = lit_created() + u8;
    let u6 = status_name(t.status) + u7;
    let u5 = lit_status() + u6;
    let u4 = seq!['"'] + u5;
    let u3 = spec_encode_text(t.description) + u4;
    let u2 = lit_desc() + u3;
    let u1 = spec_digits(t.id as nat) + u2;
    assert(spec_encode_task(t) == lit_task_open() + u1);
    lemma_concat_associative(lit_task_open(), u1, rest);
    lemma_expect_of_concat(lit_task_open(), u1 + rest);
    lemma_concat_associative(spec_digits(t.id as nat), u2, rest);
    assert((u2 + rest)[0] == u2[0]);
    assert(u2[0] == ',');
    lemma_parse_u64_of_digits(t.id, u2 + rest);
    lemma_concat_associative(lit_desc(), u3, rest);
    lemma_expect_of_concat(lit_desc(), u3 + rest);
    lemma_concat_associative(spec_encode_text(t.description), u4, rest);
    lemma_concat_associative(seq!['"'], u5, rest);
    lemma_concat_associative(spec_encode_text(t.description), seq!['"'], u5 + rest);
    lemma_parse_text_of_encoded(t.description, u5 + rest);
    lemma_concat_associative(lit_status(), u6, rest);
    lemma_expect_of_concat(lit_status(), u6 + rest);
    lemma_concat_associative(status_name(t.status), u7, rest);
    lemma_parse_status_of_name(t.status, u7 + rest);
    lemma_concat_associative(lit_created(), u8, rest);
    lemma_expect_of_concat(lit_created(), u8 + rest);
    lemma_concat_associative(spec_digits(t.created_at as nat), u9, rest);
    assert((u9 + rest)[0] == u9[0]);
    assert(u9[0] == ',');
    lemma_parse_u64_of_digits(t.created_at, u9 + rest);
    lemma_concat_associative(lit_updated(), u10, rest);
    lemma_expect_of_concat(lit_updated(), u10 + rest);
    lemma_concat_associative(spec_digits(t.updated_at as nat), close, rest);
    assert((close + rest)[0] == '}');
    assert(!is_digit('}'));
    lemma_parse_u64_of_digits(t.updated_at, close + rest);
    lemma_expect_of_concat(close, rest);
}

proof fn lemma_parse_entry_of_encoded(t: TaskSpec, rest: Seq<char>)
    requires
        t.created_at <= t.updated_at,
    ensures
        spec_parse_entry(spec_encode_entry(t) + rest) == Some((t, rest)),
{
    let u2 = seq!['"', ':'] + spec_encode_task(t);
    let u1 = spec_digits(t.id as nat) + u2;
    assert(spec_encode_entry(t) == seq!['"'] + u1);
    lemma_concat_associative(seq!['"'], u1, rest);
    lemma_expect_of_concat(seq!['"'], u1 + rest);
    lemma_concat_associative(spec_digits(t.id as nat), u2, rest);
    assert((u2 + rest)[0] == '"');
    assert(!is_digit('"'));
    lemma_parse_u64_of_digits(t.id, u2 + rest);
    lemma_concat_associative(seq!['"', ':'], spec_encode_task(t), rest);
    lemma_expect_of_concat(seq!['"', ':'], spec_encode_task(t) + rest);
    lemma_parse_task_of_encoded(t, rest);
}

proof fn lemma_parse_entries_of_encoded(ts: Seq<TaskSpec>, prev: u64, rest: Seq<char>)
    requires
        ts.len() >= 1,
        ids_ascending(ts),
        tasks_valid(ts),
        forall|i: int| 0 <= i < ts.len() ==> prev < #[trigger] ts[i].id,
        rest.len() == 0 || rest[0] != ',',
    ensures
        spec_parse_entries(spec_encode_entries(ts) + rest, prev) == Some((ts, rest)),
    decreases ts.len(),
{
    let s = spec_encode_entries(ts) + rest;
    let t0 = ts[0];
    assert(t0.created_at <= t0.updated_at);
    if ts.len() == 1 {
        lemma_parse_entry_of_encoded(t0, rest);
        assert(spec_parse_entry(s) == Some((t0, rest)));
        assert(t0.id > prev);
        assert(spec_parse_entries(s, prev) == Some((seq![t0], rest)));
        assert(seq![t0] =~= ts);
    } else {
        let tail = ts.drop_first();
        assert(spec_encode_entries(ts) == spec_encode_entry(t0) + (seq![','] + spec_encode_entries(
            tail,
        )));
        lemma_concat_associative(spec_encode_entry(t0), seq![','] + spec_encode_entries(tail), rest);
        lemma_concat_associative(seq![','], spec_encode_entries(tail), rest);
        let r1 = (seq![','] + spec_encode_entries(tail)) + rest;
        lemma_parse_entry_of_encoded(t0, r1);
        assert(spec_parse_entry(s) == Some((t0, r1)));
        assert(t0.id > prev);
        assert(r1 == seq![','] + (spec_encode_entries(tail) + rest));
        assert(r1[0] == ',');
        let r2 = r1.drop_first();
        assert(r2 =~= spec_encode_entries(tail) + rest);
        assert(r2.len() < s.len());
        assert(forall|i: int, j: int| 0 <= i < j < tail.len() ==> tail[i].id < tail[j].id);
        assert(forall|i: int| 0 <= i < tail.len() ==> 1 <= #[trigger] tail[i].id
            && tail[i].created_at <= tail[i].updated_at);
        assert(forall|i: int| 0 <= i < tail.len() ==> t0.id < #[trigger] tail[i].id);
        lemma_parse_entries_of_encoded(tail, t0.id, rest);
        assert(spec_parse_entries(s, prev) == Some((seq![t0] + tail, rest)));
        assert(seq![t0] + tail =~= ts);
    }
}

// ---------------------------------------------------------------------------
// Executable encoding.
// ---------------------------------------------------------------------------
/// Appends the characters of `s` to `out`.
fn push_str_chars(out: &mut Vec<char>, s: &str)
    ensures
        final(out)@ == old(out)@ + s@,
{
    let n = s.unicode_len();
    let mut k: usize = 0;
    proof {
        assert(out@ =~= old(out)@ + s@.take(0));
    }
    while k < n
        invariant
            0 <= k <= n == s@.len(),
            out@ == old(out)@ + s@.take(k as int),
        decreases n - k,
    {
        out.push(s.get_char(k));
        proof {
            assert(s@.take(k as int + 1) =~= s@.take(k as int).push(s@[k as int]));
            assert(out@ =~= old(out)@ + s@.take(k as int + 1));
        }
        k += 1;
    }
    proof {
        assert(s@.take(n as int) =~= s@);
    }
}

proof fn lemma_encode_text_push(x: Seq<char>, c: char)
    ensures
        spec_encode_text(x.push(c)) == spec_encode_text(x) + escape_char(c),
    decreases x.len(),
{
    if x.len() == 0 {
        assert(x.push(c)[0] == c);
        assert(x.push(c).drop_first() =~= Seq::<char>::empty());
        assert(spec_encode_text(Seq::<char>::empty()) == Seq::<char>::empty());
        assert(spec_encode_text(x.push(c)) =~= spec_encode_text(x) + escape_char(c));
    } else {
        assert(x.push(c)[0] == x[0]);
        assert(x.push(c).drop_first() =~= x.drop_first().push(c));
        lemma_encode_text_push(x.drop_first(), c);
        assert(escape_char(x[0]) + (spec_encode_text(x.drop_first()) + escape_char(c))
            =~= spec_encode_text(x) + escape_char(c));
    }
}

/// Appends the escaped form of `s` to `out`.
fn push_text_escaped(out: &mut Vec<char>, s: &str)
    ensures
        final(out)@ == old(out)@ + spec_encode_text(s@),
{
    let n = s.unicode_len();
    let mut k: usize = 0;
    proof {
        assert(out@ =~= old(out)@ + spec_encode_text(s@.take(0)));
    }
    while k < n
        invariant
            0 <= k <= n == s@.len(),
            out@ == old(out)@ + spec_encode_text(s@.take(k as int)),
        decreases n - k,
    {
        let ghost before = out@;
        let c = s.get_char(k);
        if c == '"' || c == '\\' {
            out.push('\\');
            out.push(c);
            proof {
                assert(out@ =~= before + escape_char(c));
            }
        } else {
            out.push(c);
            proof {
                assert(out@ =~= before + escape_char(c));
            }
        }
        proof {
            assert(s@.take(k as int + 1) =~= s@.take(k as int).push(s@[k as int]));
            lemma_encode_text_push(s@.take(k as int), s@[k as int]);
            assert(out@ =~= old(out)@ + spec_encode_text(s@.take(k as int + 1)));
        }
        k += 1;
    }
    proof {
        assert(s@.take(n as int) =~= s@);
    }
}

/// Appends the document form of one task object to `out`.
fn push_task(out: &mut Vec<char>, t: &Task)
    ensures
        final(out)@ == old(out)@ + spec_encode_task(t@),
{
    push_str_chars(out, "{\"id\":");
    let ghost g1 = out@;
    push_digits(out, t.id);
    let ghost g2 = out@;
    push_str_chars(out, ",\"description\":\"");
    let ghost g3 = out@;
    push_text_escaped(out, t.description.as_str());
    let ghost g4 = out@;
    out.push('"');
    let ghost g5 = out@;
    push_str_chars(out, ",\"status\":\"");
    let ghost g6 = out@;
    match t.status {
        TaskStatus::New => push_str_chars(out, "New"),
        TaskStatus::InProgress => push_str_chars(out, "InProgress"),
        TaskStatus::Done => push_str_chars(out, "Done"),
    }
    let ghost g7 = out@;
    push_str_chars(out, "\",\"created_at\":");
    let ghost g8 = out@;
    push_digits(out, t.created_at);
    let ghost g9 = out@;
    push_str_chars(out, ",\"updated_at\":");
    let ghost g10 = out@;
    push_digits(out, t.updated_at);
    let ghost g11 = out@;
    out.push('}');
    proof {
        let a1 = lit_task_open();
        let a2 = spec_digits(t@.id as nat);
        let a3 = lit_desc();
        let a4 = spec_encode_text(t@.description);
        let a5 = seq!['"'];
        let a6 = lit_status();
        let a7 = status_name(t@.status);
        let a8 = lit_created();
        let a9 = spec_digits(t@.created_at as nat);
        let a10 = lit_updated();
        let a11 = spec_digits(t@.updated_at as nat);
        let a12 = seq!['}'];
        assert(g4.push('"') =~= g4 + a5);
        assert(g11.push('}') =~= g11 + a12);
        let s12 = a12;
        assert(out@ == g11 + s12);
        let s11 = a11 + s12;
        lemma_concat_associative(g10, a11, s12);
        assert(out@ == g10 + s11);
        let s10 = a10 + s11;
        lemma_concat_associative(g9, a10, s11);
        assert(out@ == g9 + s10);
        let s9 = a9 + s10;
        lemma_concat_associative(g8, a9, s10);
        assert(out@ == g8 + s9);
        let s8 = a8 + s9;
        lemma_concat_associative(g7, a8, s9);
        assert(out@ == g7 + s8);
        let s7 = a7 + s8;
        lemma_concat_associative(g6, a7, s8);
        assert(out@ == g6 + s7);
        let s6 = a6 + s7;
        lemma_concat_associative(g5, a6, s7);
        assert(out@ == g5 + s6);
        let s5 = a5 + s6;
        lemma_concat_associative(g4, a5, s6);
        assert(out@ == g4 + s5);
        let s4 = a4 + s5;
        lemma_concat_associative(g3, a4, s5);
        assert(out@ == g3 + s4);
        let s3 = a3 + s4;
        lemma_concat_associative(g2, a3, s4);
        assert(out@ == g2 + s3);
        let s2 = a2 + s3;
        lemma_concat_associative(g1, a2, s3);
        assert(out@ == g1 + s2);
        let s1 = a1 + s2;
        lemma_concat_associative(old(out)@, a1, s2);
        assert(out@ == old(out)@ + s1);
        assert(s1 == spec_encode_task(t@));
    }
}

/// Appends the document form of one map entry to `out`.
fn push_entry(out: &mut Vec<char>, t: &Task)
    ensures
        final(out)@ == old(out)@ + spec_encode_entry(t@),
{
    out.push('"');
    let ghost g1 = out@;
    push_digits(out, t.id);
    let ghost g2 = out@;
    out.push('"');
    out.push(':');
    let ghost g3 = out@;
    push_task(out, t);
    proof {
        let a1 = seq!['"'];
        let a2 = spec_digits(t@.id as nat);
        let a3 = seq!['"', ':'];
        let a4 = spec_encode_task(t@);
        assert(g1 =~= old(out)@ + a1);
        assert(g3 =~= g2 + a3);
        let s4 = a4;
        assert(out@ == g3 + s4);
        let s3 = a3 + s4;
        lemma_concat_associative(g2, a3, s4);
        assert(out@ == g2 + s3);
        let s2 = a2 + s3;
        lemma_concat_associative(g1, a2, s3);
        assert(out@ == g1 + s2);
        let s1 = a1 + s2;
        lemma_concat_associative(old(out)@, a1, s2);
        assert(out@ == old(out)@ + s1);
        assert(s1 == spec_encode_entry(t@));
    }
}

proof fn lemma_encode_entries_push(x: Seq<TaskSpec>, e: TaskSpec)
    ensures
        spec_encode_entries(x.push(e)) == if x.len() == 0 {
            spec_encode_entry(e)
        } else {
            spec_encode_entries(x) + seq![','] + spec_encode_entry(e)
        },
    decreases x.len(),
{
    let p = x.push(e);
    if x.len() == 0 {
        assert(p.len() == 1);
        assert(p[0] == e);
    } else {
        assert(p[0] == x[0]);
        assert(p.drop_first() =~= x.drop_first().push(e));
        lemma_encode_entries_push(x.drop_first(), e);
        if x.len() == 1 {
            assert(x.drop_first().len() == 0);
            assert(spec_encode_entries(p) == spec_encode_entry(x[0]) + seq![',']
                + spec_encode_entry(e));
            assert(spec_encode_entries(x) == spec_encode_entry(x[0]));
        } else {
            assert(spec_encode_entry(p[0]) + seq![','] + (spec_encode_entries(x.drop_first())
                + seq![','] + spec_encode_entry(e)) =~= spec_encode_entries(x) + seq![',']
                + spec_encode_entry(e));
        }
    }
}

/// The document of `store`: one object whose `"tasks"` field holds the
/// id-to-task map, entries in store order.
pub fn save(store: &TaskStore) -> (out: Vec<char>)
    ensures
        out@ == spec_encode_store(store@),
{
    let mut out: Vec<char> = Vec::new();
    push_str_chars(&mut out, "{\"tasks\":{");
    proof {
        assert(store@.take(0) =~= Seq::<TaskSpec>::empty());
        assert(out@ =~= lit_store_open() + spec_encode_entries(store@.take(0)));
    }
    let mut i: usize = 0;
    while i < store.tasks.len()
        invariant
            0 <= i <= store@.len() == store.tasks@.len(),
            out@ == lit_store_open() + spec_encode_entries(store@.take(i as int)),
        decreases store@.len() - i,
    {
        let ghost before = out@;
        if i > 0 {
            out.push(',');
        }
        push_entry(&mut out, &store.tasks[i]);
        proof {
            assert(store@[i as int] == store.tasks@[i as int]@);
            assert(store@.take(i as int + 1) =~= store@.take(i as int).push(store@[i as int]));
            lemma_encode_entries_push(store@.take(i as int), store@[i as int]);
            if i == 0 {
                assert(out@ =~= lit_store_open() + spec_encode_entries(
                    store@.take(i as int + 1),
                ));
            } else {
                assert(out@ =~= lit_store_open() + spec_encode_entries(
                    store@.take(i as int + 1),
                ));
            }
        }
        i += 1;
    }
    push_str_chars(&mut out, "}}");
    proof {
        assert(store@.take(store@.len() as int) =~= store@);
        assert(out@ =~= spec_encode_store(store@));
    }
    out
}

// ---------------------------------------------------------------------------
// Executable parsing.
// ---------------------------------------------------------------------------
/// Matches `lit` at position `i` of `s`.
fn expect_str(s: &Vec<char>, i: usize, lit: &str) -> (r: Option<usize>)
    requires
        i <= s@.len(),
    ensures
        r matches Some(j) ==> i <= j <= s@.len() && j - i == lit@.len() && spec_expect(
            s@.skip(i as int),
            lit@,
        ) == Some(s@.skip(j as int)),
        r is None ==> spec_expect(s@.skip(i as int), lit@) is None,
{
    let n = lit.unicode_len();
    if n > s.len() - i {
        return None;
    }
    let mut k: usize = 0;
    while k < n
        invariant
            0 <= k <= n == lit@.len(),
            i <= s@.len(),
            i + n <= s@.len(),
            s@.len() <= usize::MAX,
            forall|m: int| 0 <= m < k ==> s@.skip(i as int)[m] == lit@[m],
        decreases n - k,
    {
        proof {
            assert(i + k < s@.len());
        }
        let c = s[i + k];
        let l = lit.get_char(k);
        proof {
            assert(s@.skip(i as int)[k as int] == s@[i as int + k]);
        }
        if c != l {
            proof {
                assert(s@.skip(i as int).take(n as int)[k as int] != lit@[k as int]);
            }
            return None;
        }
        k += 1;
    }
    proof {
        assert(s@.skip(i as int).take(n as int) =~= lit@);
        assert(s@.skip(i as int).skip(n as int) =~= s@.skip(i as int + n));
    }
    Some(i + n)
}

/// How a text prefix read so far combines with the parse of the remainder.
spec fn text_step(acc: Seq<char>, inner: Option<(Seq<char>, Seq<char>)>) -> Option<
    (Seq<char>, Seq<char>),
> {
    match inner {
        Some(p) => Some((acc + p.0, p.1)),
        None => None,
    }
}

/// Reads an escaped description body and its closing quote, starting at
/// position `i`.
fn parse_text_exec(s: &Vec<char>, i: usize) -> (r: Option<(String, usize)>)
    requires
        i <= s@.len(),
    ensures
        r matches Some(p) ==> i < p.1 <= s@.len() && spec_parse_text(s@.skip(i as int)) == Some(
            (p.0@, s@.skip(p.1 as int)),
        ),
        r is None ==> spec_parse_text(s@.skip(i as int)) is None,
{
    let mut acc: Vec<char> = Vec::new();
    let mut j: usize = i;
    proof {
        assert(acc@ =~= Seq::<char>::empty());
        match spec_parse_text(s@.skip(i as int)) {
            Some(p) => {
                assert(Seq::<char>::empty() + p.0 =~= p.0);
            },
            None => {},
        }
    }
    loop
        invariant
            i <= j <= s@.len(),
            spec_parse_text(s@.skip(i as int)) == text_step(
                acc@,
                spec_parse_text(s@.skip(j as int)),
            ),
        decreases s@.len() - j,
    {
        if j == s.len() {
            proof {
                assert(s@.skip(j as int) =~= Seq::<char>::empty());
            }
            return None;
        }
        let c = s[j];
        proof {
            assert(s@.skip(j as int)[0] == s@[j as int]);
        }
        if c == '"' {
            proof {
                assert(s@.skip(j as int).drop_first() =~= s@.skip(j as int + 1));
                assert(acc@ + Seq::<char>::empty() =~= acc@);
            }
            let out = string_from_chars(&acc);
            return Some((out, j + 1));
        } else if c == '\\' {
            if j + 1 == s.len() {
                proof {
                    assert(s@.skip(j as int).len() == 1);
                }
                return None;
            }
            let c2 = s[j + 1];
            proof {
                assert(s@.skip(j as int)[1] == s@[j as int + 1]);
            }
            if c2 == '"' || c2 == '\\' {
                let ghost acc0 = acc@;
                acc.push(c2);
                proof {
                    assert(s@.skip(j as int).skip(2) =~= s@.skip(j as int + 2));
                    match spec_parse_text(s@.skip(j as int + 2)) {
                        Some(p) => {
                            assert(acc0 + (seq![s@[j as int + 1]] + p.0) =~= acc@ + p.0);
                        },
                        None => {},
                    }
                }
                j += 2;
            } else {
                return None;
            }
        } else {
            let ghost acc0 = acc@;
            acc.push(c);
            proof {
                assert(s@.skip(j as int).drop_first() =~= s@.skip(j as int + 1));
                match spec_parse_text(s@.skip(j as int + 1)) {
                    Some(p) => {
                        assert(acc0 + (seq![s@[j as int]] + p.0) =~= acc@ + p.0);
                    },
                    None => {},
                }
            }
            j += 1;
        }
    }
}

/// Reads one of the three status names at position `i`.
fn parse_status_exec(s: &Vec<char>, i: usize) -> (r: Option<(TaskStatus, usize)>)
    requires
        i <= s@.len(),
    ensures
        r matches Some(p) ==> i <= p.1 <= s@.len() && spec_parse_status(s@.skip(i as int)) == Some(
            (p.0, s@.skip(p.1 as int)),
        ),
        r is None ==> spec_parse_status(s@.skip(i as int)) is None,
{
    match expect_str(s, i, "New") {
        Some(j) => {
            return Some((TaskStatus::New, j));
        },
        None => {},
    }
    match expect_str(s, i, "InProgress") {
        Some(j) => {
            return Some((TaskStatus::InProgress, j));
        },
        None => {},
    }
    match expect_str(s, i, "Done") {
        Some(j) => {
            return Some((TaskStatus::Done, j));
        },
        None => {},
    }
    None
}

/// Reads one task object at position `i`.
fn parse_task_exec(s: &Vec<char>, i: usize) -> (r: Option<(Task, usize)>)
    requires
        i <= s@.len(),
    ensures
        r matches Some(p) ==> i < p.1 <= s@.len() && spec_parse_task(s@.skip(i as int)) == Some(
            (p.0@, s@.skip(p.1 as int)),
        ),
        r is None ==> spec_parse_task(s@.skip(i as int)) is None,
{
    proof {
        reveal_strlit("}");
        assert("}"@ =~= seq!['}']);
    }
    let j1 = match expect_str(s, i, "{\"id\":") {
        Some(j) => j,
        None => {
            return None;
        },
    };
    let (id, j2) = match scan_u64(s, j1) {
        Some(p) => p,
        None => {
            return None;
        },
    };
    let j3 = match expect_str(s, j2, ",\"description\":\"") {
        Some(j) => j,
        None => {
            return None;
        },
    };
    let (description, j4) = match parse_text_exec(s, j3) {
        Some(p) => p,
        None => {
            return None;
        },
    };
    let j5 = match expect_str(s, j4, ",\"status\":\"") {
        Some(j) => j,
        None => {
            return None;
        },
    };
    let (status, j6) = match parse_status_exec(s, j5) {
        Some(p) => p,
        None => {
            return None;
        },
    };
    let j7 = match expect_str(s, j6, "\",\"created_at\":") {
        Some(j) => j,
        None => {
            return None;
        },
    };
    let (created_at, j8) = match scan_u64(s, j7) {
        Some(p) => p,
        None => {
            return None;
        },
    };
    let j9 = match expect_str(s, j8, ",\"updated_at\":") {
        Some(j) => j,
        None => {
            return None;
        },
    };
    let (updated_at, j10) = match scan_u64(s, j9) {
        Some(p) => p,
        None => {
            return None;
        },
    };
    let j11 = match expect_str(s, j10, "}") {
        Some(j) => j,
        None => {
            return None;
        },
    };
    if created_at > updated_at {
        return None;
    }
    let t = Task::new(id, description, status, created_at, updated_at);
    Some((t, j11))
}

/// Reads one map entry at position `i`; its key must repeat the task's id.
fn parse_entry_exec(s: &Vec<char>, i: usize) -> (r: Option<(Task, usize)>)
    requires
        i <= s@.len(),
    ensures
        r matches Some(p) ==> i < p.1 <= s@.len() && spec_parse_entry(s@.skip(i as int)) == Some(
            (p.0@, s@.skip(p.1 as int)),
        ),
        r is None ==> spec_parse_entry(s@.skip(i as int)) is None,
{
    proof {
        reveal_strlit("\"");
        reveal_strlit("\":");
        assert("\""@ =~= seq!['"']);
        assert("\":"@ =~= seq!['"', ':']);
    }
    let j1 = match expect_str(s, i, "\"") {
        Some(j) => j,
        None => {
            return None;
        },
    };
    let (key, j2) = match scan_u64(s, j1) {
        Some(p) => p,
        None => {
            return None;
        },
    };
    let j3 = match expect_str(s, j2, "\":") {
        Some(j) => j,
        None => {
            return None;
        },
    };
    let (t, j4) = match parse_task_exec(s, j3) {
        Some(p) => p,
        None => {
            return None;
        },
    };
    if t.id != key {
        return None;
    }
    Some((t, j4))
}

/// How the entries read so far combine with the parse of the remainder.
spec fn entries_step(acc: Seq<TaskSpec>, inner: Option<(Seq<TaskSpec>, Seq<char>)>) -> Option<
    (Seq<TaskSpec>, Seq<char>),
> {
    match inner {
        Some(p) => Some((acc + p.0, p.1)),
        None => None,
    }
}

/// Reads the whole comma-separated entry list starting at position `i`.
fn parse_entries_exec(s: &Vec<char>, i: usize) -> (r: Option<(Vec<Task>, usize)>)
    requires
        i <= s@.len(),
    ensures
        r matches Some(p) ==> i < p.1 <= s@.len() && spec_parse_entries(s@.skip(i as int), 0)
            == Some((p.0.deep_view(), s@.skip(p.1 as int))),
        r is None ==> spec_parse_entries(s@.skip(i as int), 0) is None,
{
    let mut acc: Vec<Task> = Vec::new();
    let mut j: usize = i;
    let mut prev: u64 = 0;
    proof {
        assert(acc.deep_view() =~= Seq::<TaskSpec>::empty());
        match spec_parse_entries(s@.skip(i as int), 0) {
            Some(p) => {
                assert(Seq::<TaskSpec>::empty() + p.0 =~= p.0);
            },
            None => {},
        }
    }
    loop
        invariant
            i <= j <= s@.len(),
            spec_parse_entries(s@.skip(i as int), 0) == entries_step(
                acc.deep_view(),
                spec_parse_entries(s@.skip(j as int), prev),
            ),
        decreases s@.len() - j,
    {
        let (t, j2) = match parse_entry_exec(s, j) {
            Some(p) => p,
            None => {
                return None;
            },
        };
        if t.id <= prev {
            return None;
        }
        let tid = t.id;
        let ghost acc0 = acc.deep_view();
        let ghost tspec = t@;
        let has_more = j2 < s.len() && s[j2] == ',';
        acc.push(t);
        proof {
            assert(acc.deep_view() =~= acc0.push(tspec));
        }
        if has_more {
            proof {
                assert(s@.skip(j2 as int)[0] == s@[j2 as int]);
                assert(s@.skip(j2 as int).drop_first() =~= s@.skip(j2 as int + 1));
                match spec_parse_entries(s@.skip(j2 as int + 1), tspec.id) {
                    Some(p) => {
                        assert(acc0 + (seq![tspec] + p.0) =~= acc0.push(tspec) + p.0);
                    },
                    None => {},
                }
            }
            j = j2 + 1;
            prev = tid;
        } else {
            proof {
                if j2 < s@.len() {
                    assert(s@.skip(j2 as int)[0] == s@[j2 as int]);
                }
                assert(acc0 + seq![tspec] =~= acc0.push(tspec));
            }
            return Some((acc, j2));
        }
    }
}

/// Parses a persisted document back into a store.  Any departure from the
/// canonical shape the save writes is reported as a parse failure, and a
/// loaded store is always well-formed.
pub fn load(doc: &Vec<char>) -> (r: Result<TaskStore, ResponseError>)
    ensures
        r matches Ok(st) ==> spec_parse_store(doc@) == Some(st@) && st.wf(),
        r matches Err(e) ==> spec_parse_store(doc@) is None && e == ResponseError::ParseError,
{
    proof {
        assert(doc@.skip(0) =~= doc@);
    }
    let j1 = match expect_str(doc, 0, "{\"tasks\":{") {
        Some(j) => j,
        None => {
            return Err(ResponseError::ParseError);
        },
    };
    if j1 < doc.len() && doc[j1] == '"' {
        proof {
            assert(doc@.skip(j1 as int)[0] == doc@[j1 as int]);
        }
        let (tasks, j2) = match parse_entries_exec(doc, j1) {
            Some(p) => p,
            None => {
                return Err(ResponseError::ParseError);
            },
        };
        let j3 = match expect_str(doc, j2, "}}") {
            Some(j) => j,
            None => {
                return Err(ResponseError::ParseError);
            },
        };
        if j3 != doc.len() {
            return Err(ResponseError::ParseError);
        }
        let st = TaskStore { tasks };
        proof {
            lemma_parse_entries_wf(doc@.skip(j1 as int), 0);
            assert(doc@.skip(j3 as int).len() == 0);
        }
        Ok(st)
    } else {
        proof {
            if j1 < doc@.len() {
                assert(doc@.skip(j1 as int)[0] == doc@[j1 as int]);
            }
        }
        let j3 = match expect_str(doc, j1, "}}") {
            Some(j) => j,
            None => {
                return Err(ResponseError::ParseError);
            },
        };
        if j3 != doc.len() {
            return Err(ResponseError::ParseError);
        }
        let st = TaskStore { tasks: Vec::new() };
        proof {
            assert(st@ =~= Seq::<TaskSpec>::empty());
        }
        Ok(st)
    }
}

/// Saving a well-formed store and parsing the document back yields exactly
/// the saved contents: the persistence round trip, stated over the
/// mathematical model.
pub proof fn lemma_store_roundtrip(ts: Seq<TaskSpec>)
    requires
        store_wf(ts),
    ensures
        spec_parse_store(spec_encode_store(ts)) == Some(ts),
{
    reveal_strlit("{\"tasks\":{");
    reveal_strlit("}}");
    let s = spec_encode_store(ts);
    let r1 = spec_encode_entries(ts) + lit_store_close();
    assert(s == lit_store_open() + r1);
    lemma_expect_of_concat(lit_store_open(), r1);
    if ts.len() == 0 {
        assert(r1 =~= lit_store_close());
        assert(r1[0] == '}');
        lemma_expect_of_concat(lit_store_close(), Seq::<char>::empty());
        assert(lit_store_close() + Seq::<char>::empty() =~= lit_store_close());
        assert(spec_parse_store(s) == Some(Seq::<TaskSpec>::empty()));
        assert(Seq::<TaskSpec>::empty() =~= ts);
    } else {
        assert(spec_encode_entry(ts[0])[0] == '"');
        assert(spec_encode_entries(ts)[0] == '"');
        assert(r1[0] == '"');
        assert(lit_store_close()[0] == '}');
        lemma_parse_entries_of_encoded(ts, 0, lit_store_close());
        lemma_expect_of_concat(lit_store_close(), Seq::<char>::empty());
        assert(lit_store_close() + Seq::<char>::empty() =~= lit_store_close());
    }
}

} // verus!

