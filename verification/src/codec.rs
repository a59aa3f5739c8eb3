//! The backing document: a canonical, pretty-printed JSON text for a task
//! collection. `doc_json` pins the text down to the character; `to_json`
//! produces exactly that text, and `from_json` accepts a text only if
//! re-serializing what it read gives the input back, so everything a load
//! returns (other than the empty fallback) is the canonical form of itself.

use vstd::prelude::*;
use vstd::string::{StrSliceExecFns, StringExecFns};
use crate::task::{views_of, DataView, Task, TaskData, TaskStatus, TaskView};
use crate::time::{rfc3339_of, Timestamp};

verus! {

pub open spec fn digit_char(n: nat) -> char {
    if n == 0 {
        '0'
    } else if n == 1 {
        '1'
    } else if n == 2 {
        '2'
    } else if n == 3 {
        '3'
    } else if n == 4 {
        '4'
    } else if n == 5 {
        '5'
    } else if n == 6 {
        '6'
    } else if n == 7 {
        '7'
    } else if n == 8 {
        '8'
    } else {
        '9'
    }
}

/// Decimal digits of `n`, most significant first, no sign, no leading zero.
pub open spec fn dec_of(n: nat) -> Seq<char>
    decreases n,
{
    if n < 10 {
        seq![digit_char(n)]
    } else {
        dec_of(n / 10) + seq![digit_char(n % 10)]
    }
}

pub open spec fn hex_char(n: nat) -> char {
    if n < 10 {
        digit_char(n)
    } else if n == 10 {
        'a'
    } else if n == 11 {
        'b'
    } else if n == 12 {
        'c'
    } else if n == 13 {
        'd'
    } else if n == 14 {
        'e'
    } else {
        'f'
    }
}

/// How one character appears inside a JSON string literal: quote and
/// backslash escaped, control characters as `\u00XX`, everything else as
/// itself.
pub open spec fn esc_char(c: char) -> Seq<char> {
    if c == '"' {
        seq!['\\', '"']
    } else if c == '\\' {
        seq!['\\', '\\']
    } else if (c as u32) < 0x20 {
        seq!['\\', 'u', '0', '0', hex_char(((c as u32) / 16) as nat), hex_char(
            ((c as u32) % 16) as nat,
        )]
    } else {
        seq![c]
    }
}

pub open spec fn escape_of(s: Seq<char>) -> Seq<char>
    decreases s.len(),
{
    if s.len() == 0 {
        Seq::empty()
    } else {
        escape_of(s.drop_last()) + esc_char(s.last())
    }
}

pub open spec fn status_str(s: TaskStatus) -> Seq<char> {
    match s {
        TaskStatus::Todo => "Todo"@,
        TaskStatus::InProgress => "InProgress"@,
        TaskStatus::Done => "Done"@,
    }
}

/// One task as a JSON object, indented for its place in the document.
pub open spec fn task_json(t: TaskView) -> Seq<char> {
    "{\n      \"id\": "@ + dec_of(t.id as nat) + ",\n      \"name\": \""@ + escape_of(t.name)
        + "\",\n      \"status\": \""@ + status_str(t.status) + "\",\n      \"created_at\": \""@
        + rfc3339_of(t.created_at) + "\",\n      \"updated_at\": \""@ + rfc3339_of(t.updated_at)
        + "\"\n    }"@
}

pub open spec fn sep_json(i: int) -> Seq<char> {
    if i == 0 {
        "\n    "@
    } else {
        ",\n    "@
    }
}

pub open spec fn items_json(ts: Seq<TaskView>) -> Seq<char>
    decreases ts.len(),
{
    if ts.len() == 0 {
        Seq::empty()
    } else {
        items_json(ts.drop_last()) + sep_json(ts.len() - 1) + task_json(ts.last())
    }
}

pub open spec fn tasks_json(ts: Seq<TaskView>) -> Seq<char> {
    if ts.len() == 0 {
        Seq::empty()
    } else {
        items_json(ts) + "\n  "@
    }
}

/// The whole backing document for a collection.
pub open spec fn doc_json(d: DataView) -> Seq<char> {
    "{\n  \"tasks\": ["@ + tasks_json(d.tasks) + "],\n  \"id_counter\": "@ + dec_of(
        d.next_id as nat,
    ) + "\n}"@
}

/// Relies on std's `String::push`: appends the character.
#[verifier::external_body]
fn push_char(out: &mut String, c: char)
    ensures
        final(out)@ == old(out)@.push(c),
{
    out.push(c);
}

fn push_digit(out: &mut String, d: u64)
    requires
        d < 10,
    ensures
        final(out)@ == old(out)@ + seq![digit_char(d as nat)],
{
    match d {
        0 => out.append("0"),
        1 => out.append("1"),
        2 => out.append("2"),
        3 => out.append("3"),
        4 => out.append("4"),
        5 => out.append("5"),
        6 => out.append("6"),
        7 => out.append("7"),
        8 => out.append("8"),
        _ => out.append("9"),
    }
    proof {
        reveal_strlit("0");
        reveal_strlit("1");
        reveal_strlit("2");
        reveal_strlit("3");
        reveal_strlit("4");
        reveal_strlit("5");
        reveal_strlit("6");
        reveal_strlit("7");
        reveal_strlit("8");
        reveal_strlit("9");
        assert(final(out)@ =~= old(out)@ + seq![digit_char(d as nat)]);
    }
}

fn push_dec(out: &mut String, n: u64)
    ensures
        final(out)@ == old(out)@ + dec_of(n as nat),
    decreases n,
{
    if n < 10 {
        push_digit(out, n);
    } else {
        push_dec(out, n / 10);
        push_digit(out, n % 10);
        proof {
            assert(final(out)@ =~= old(out)@ + dec_of(n as nat));
        }
    }
}

fn push_hex(out: &mut String, v: u32)
    requires
        v < 16,
    ensures
        final(out)@ == old(out)@ + seq![hex_char(v as nat)],
{
    if v < 10 {
        push_digit(out, v as u64);
    } else {
        match v {
            10 => out.append("a"),
            11 => out.append("b"),
            12 => out.append("c"),
            13 => out.append("d"),
            14 => out.append("e"),
            _ => out.append("f"),
        }
        proof {
            reveal_strlit("a");
            reveal_strlit("b");
            reveal_strlit("c");
            reveal_strlit("d");
            reveal_strlit("e");
            reveal_strlit("f");
            assert(final(out)@ =~= old(out)@ + seq![hex_char(v as nat)]);
        }
    }
}

fn push_esc_char(out: &mut String, c: char)
    ensures
        final(out)@ == old(out)@ + esc_char(c),
{
    if c == '"' {
        out.append("\\\"");
        proof {
            reveal_strlit("\\\"");
            assert(final(out)@ =~= old(out)@ + esc_char(c));
        }
    } else if c == '\\' {
        out.append("\\\\");
        proof {
            reveal_strlit("\\\\");
            assert(final(out)@ =~= old(out)@ + esc_char(c));
        }
    } else {
        let v = c as u32;
        if v < 0x20 {
            out.append("\\u00");
            push_hex(out, v / 16);
            push_hex(out, v % 16);
            proof {
                reveal_strlit("\\u00");
                assert(final(out)@ =~= old(out)@ + esc_char(c));
            }
        } else {
            push_char(out, c);
            proof {
                assert(final(out)@ =~= old(out)@ + esc_char(c));
            }
        }
    }
}

fn push_escaped(out: &mut String, s: &str)
    ensures
        final(out)@ == old(out)@ + escape_of(s@),
{
    let n = s.unicode_len();
    let mut i: usize = 0;
    while i < n
        invariant
            i <= n,
            n == s@.len(),
            out@ == old(out)@ + escape_of(s@.take(i as int)),
        decreases n - i,
    {
        let c = s.get_char(i);
        push_esc_char(out, c);
        proof {
            assert(s@.take(i + 1).drop_last() =~= s@.take(i as int));
            assert(s@.take(i + 1).last() == s@[i as int]);
            assert(out@ =~= old(out)@ + escape_of(s@.take(i + 1)));
        }
        i = i + 1;
    }
    proof {
        assert(s@.take(n as int) =~= s@);
    }
}

fn push_status(out: &mut String, s: TaskStatus)
    ensures
        final(out)@ == old(out)@ + status_str(s),
{
    match s {
        TaskStatus::Todo => out.append("Todo"),
        TaskStatus::InProgress => out.append("InProgress"),
        TaskStatus::Done => out.append("Done"),
    }
}

fn push_task(out: &mut String, t: &Task)
    requires
        t.created_at.wf(),
        t.updated_at.wf(),
    ensures
        final(out)@ == old(out)@ + task_json(t@),
        ts_ok(t@.created_at),
        ts_ok(t@.updated_at),
{
    out.append("{\n      \"id\": ");
    push_dec(out, t.id);
    out.append(",\n      \"name\": \"");
    push_escaped(out, t.name.as_str());
    out.append("\",\n      \"status\": \"");
    push_status(out, t.status);
    out.append("\",\n      \"created_at\": \"");
    let c = crate::time::fmt_rfc3339(&t.created_at);
    out.append(c.as_str());
    out.append("\",\n      \"updated_at\": \"");
    let u = crate::time::fmt_rfc3339(&t.updated_at);
    out.append(u.as_str());
    out.append("\"\n    }");
    proof {
        assert(final(out)@ =~= old(out)@ + task_json(t@));
    }
}

impl TaskData {
    /// The canonical backing document for this collection.
    pub fn to_json(&self) -> (r: String)
        requires
            self.fields_wf(),
        ensures
            r@ == doc_json(self@),
            forall|m: int|
                0 <= m < self@.tasks.len() ==> ts_ok((#[trigger] self@.tasks[m]).created_at)
                    && ts_ok(self@.tasks[m].updated_at),
            self@.wf() && (forall|m: int|
                0 <= m < self@.tasks.len() ==> plain_seq((#[trigger] self@.tasks[m]).name))
                ==> doc_at(r@, self@),
    {
        let ghost vs = self@.tasks;
        let mut out = String::new();
        out.append("{\n  \"tasks\": [");
        let n = self.tasks.len();
        let mut i: usize = 0;
        while i < n
            invariant
                i <= n,
                n == self.tasks@.len(),
                vs == self@.tasks,
                self.fields_wf(),
                forall|m: int|
                    0 <= m < i ==> ts_ok((#[trigger] vs[m]).created_at) && ts_ok(
                        vs[m].updated_at,
                    ),
                out@ == "{\n  \"tasks\": ["@ + items_json(vs.take(i as int)),
            decreases n - i,
        {
            if i == 0 {
                out.append("\n    ");
            } else {
                out.append(",\n    ");
            }
            push_task(&mut out, &self.tasks[i]);
            proof {
                assert(vs.take(i + 1).drop_last() =~= vs.take(i as int));
                assert(vs.take(i + 1).last() == vs[i as int]);
                assert(out@ =~= "{\n  \"tasks\": ["@ + items_json(vs.take(i + 1)));
            }
            i = i + 1;
        }
        proof {
            assert(vs.take(n as int) =~= vs);
        }
        if n > 0 {
            out.append("\n  ");
        }
        out.append("],\n  \"id_counter\": ");
        push_dec(&mut out, self.id_counter);
        out.append("\n}");
        proof {
            assert(out@ =~= doc_json(self@));
        }
        out
    }
}

pub open spec fn is_digit(c: char) -> bool {
    48 <= (c as u32) <= 57
}

pub open spec fn digit_val(c: char) -> nat {
    ((c as u32) - 48) as nat
}

/// The number a run of digits denotes, most significant first.
pub open spec fn val_of(s: Seq<char>) -> nat
    decreases s.len(),
{
    if s.len() == 0 {
        0
    } else {
        val_of(s.drop_last()) * 10 + digit_val(s.last())
    }
}

/// The decimal text of a number is made of digits and denotes that number.
proof fn lemma_dec_digits(n: nat)
    ensures
        dec_of(n).len() >= 1,
        forall|k: int| 0 <= k < dec_of(n).len() ==> is_digit(#[trigger] dec_of(n)[k]),
        val_of(dec_of(n)) == n,
    decreases n,
{
    assert((digit_char(n % 10) as u32) == 48 + n % 10);
    if n < 10 {
        assert((digit_char(n) as u32) == 48 + n);
        assert(digit_val(digit_char(n)) == n);
        assert(dec_of(n) =~= seq![digit_char(n)]);
        assert(dec_of(n).drop_last() =~= Seq::<char>::empty());
        assert(val_of(dec_of(n)) == val_of(Seq::<char>::empty()) * 10 + digit_val(digit_char(n)));
    } else {
        lemma_dec_digits(n / 10);
        assert(dec_of(n) == dec_of(n / 10) + seq![digit_char(n % 10)]);
        assert(dec_of(n).drop_last() =~= dec_of(n / 10));
        assert(dec_of(n).last() == digit_char(n % 10));
        assert(digit_val(digit_char(n % 10)) == n % 10);
        assert(val_of(dec_of(n)) == (n / 10) * 10 + n % 10);
        assert(n == (n / 10) * 10 + n % 10) by (nonlinear_arith);
    }
}

/// A longer digit prefix never denotes a smaller number.
proof fn lemma_val_take_le(s: Seq<char>, k: int)
    requires
        0 <= k <= s.len(),
    ensures
        val_of(s.take(k)) <= val_of(s),
    decreases s.len() - k,
{
    if k < s.len() {
        lemma_val_take_le(s, k + 1);
        assert(s.take(k + 1).drop_last() =~= s.take(k));
        assert(val_of(s.take(k + 1)) == val_of(s.take(k)) * 10 + digit_val(s.take(k + 1).last()));
        assert(val_of(s.take(k)) * 10 >= val_of(s.take(k))) by (nonlinear_arith)
            requires
                val_of(s.take(k)) >= 0,
        ;
    } else {
        assert(s.take(k) =~= s);
    }
}

/// The decimal text of `v` stands at position `i`, a non-digit right after
/// it.
pub open spec fn dec_at(s: Seq<char>, i: int, v: u64) -> bool {
    &&& 0 <= i
    &&& i + dec_of(v as nat).len() < s.len()
    &&& s.subrange(i, i + dec_of(v as nat).len()) == dec_of(v as nat)
    &&& !is_digit(s[i + dec_of(v as nat).len()])
}

/// The characters of `lit` at position `i`, or nothing. Succeeds, with the
/// position just after them, exactly when they stand there.
fn expect_lit(s: &str, i: usize, lit: &str) -> (r: Option<usize>)
    requires
        i <= s@.len(),
    ensures
        r matches Some(j) ==> i + lit@.len() == j <= s@.len() && s@.subrange(i as int, j as int)
            == lit@,
        i + lit@.len() <= s@.len() && s@.subrange(i as int, i + lit@.len()) == lit@ ==> r
            == Some((i + lit@.len()) as usize),
{
    let n = s.unicode_len();
    let m = lit.unicode_len();
    if m > n - i {
        return None;
    }
    let mut k: usize = 0;
    while k < m
        invariant
            k <= m,
            i + m <= n,
            n == s@.len(),
            m == lit@.len(),
            forall|p: int| 0 <= p < k ==> s@[i + p] == lit@[p],
        decreases m - k,
    {
        if s.get_char(i + k) != lit.get_char(k) {
            proof {
                assert(s@.subrange(i as int, i + m).len() == m);
                if s@.subrange(i as int, i + m) == lit@ {
                    assert(s@.subrange(i as int, i + m)[k as int] == s@[i + k]);
                }
            }
            return None;
        }
        k = k + 1;
    }
    proof {
        assert(s@.subrange(i as int, i + m) =~= lit@);
    }
    Some(i + m)
}

/// A nonempty run of decimal digits at position `i`, read as a `u64`. On
/// success the position just after the run, which is strictly advanced; the
/// decimal text of any `u64` standing at `i` is read back as that number.
fn parse_u64(s: &str, i: usize) -> (r: Option<(u64, usize)>)
    requires
        i <= s@.len(),
    ensures
        r matches Some(p) ==> i < p.1 <= s@.len(),
        forall|v: u64| dec_at(s@, i as int, v) ==> r == Some(
            (v, (i + dec_of(v as nat).len()) as usize),
        ),
{
    let n = s.unicode_len();
    let mut j = i;
    let mut v: u64 = 0;
    let mut stop: bool = false;
    while !stop && j < n
        invariant
            i <= j <= n,
            n == s@.len(),
            forall|p: int| i <= p < j ==> is_digit(#[trigger] s@[p]),
            v as nat == val_of(s@.subrange(i as int, j as int)),
            stop ==> j < n && !is_digit(s@[j as int]),
        decreases n - j, (if stop { 0int } else { 1int }),
    {
        let u = s.get_char(j) as u32;
        if u < 48 || u > 57 {
            stop = true;
        } else {
            let d = (u - 48) as u64;
            let w = match v.checked_mul(10) {
                Some(w0) => w0.checked_add(d),
                None => None,
            };
            match w {
                Some(w1) => {
                    proof {
                        assert(s@.subrange(i as int, j + 1).drop_last() =~= s@.subrange(
                            i as int,
                            j as int,
                        ));
                        assert(s@.subrange(i as int, j + 1).last() == s@[j as int]);
                    }
                    v = w1;
                    j = j + 1;
                },
                None => {
                    proof {
                        assert forall|v0: u64| dec_at(s@, i as int, v0) implies false by {
                            lemma_dec_digits(v0 as nat);
                            let len0 = dec_of(v0 as nat).len() as int;
                            let hi = i + len0;
                            // the digit run cannot reach past the stated text
                            assert(j < hi) by {
                                if j >= hi {
                                    assert(is_digit(s@[hi]));
                                }
                            }
                            assert(s@.subrange(i as int, j as int) =~= dec_of(v0 as nat).take(
                                j - i,
                            ));
                            assert(s@.subrange(i as int, j + 1) =~= dec_of(v0 as nat).take(
                                j - i + 1,
                            ));
                            assert(s@.subrange(i as int, j + 1).drop_last() =~= s@.subrange(
                                i as int,
                                j as int,
                            ));
                            assert(val_of(s@.subrange(i as int, j + 1)) == (v as nat) * 10
                                + digit_val(s@[j as int]));
                            lemma_val_take_le(dec_of(v0 as nat), j - i + 1);
                            assert(val_of(dec_of(v0 as nat).take(j - i + 1)) <= v0 as nat);
                            assert((v as nat) * 10 + digit_val(s@[j as int]) <= u64::MAX as nat);
                        }
                    }
                    return None;
                },
            }
        }
    }
    if j == i {
        proof {
            assert forall|v0: u64| dec_at(s@, i as int, v0) implies false by {
                lemma_dec_digits(v0 as nat);
                assert(s@[i as int] == dec_of(v0 as nat)[0]);
                assert(is_digit(s@[i as int]));
            }
        }
        None
    } else {
        proof {
            assert forall|v0: u64| dec_at(s@, i as int, v0) implies v == v0 && j == i + dec_of(
                v0 as nat,
            ).len() by {
                lemma_dec_digits(v0 as nat);
                let len0 = dec_of(v0 as nat).len() as int;
                let hi = i + len0;
                assert(j < n && !is_digit(s@[j as int]));
                assert(j == hi) by {
                    if j < hi {
                        assert(s@[j as int] == dec_of(v0 as nat)[j - i]);
                        assert(is_digit(s@[j as int]));
                    }
                    if j > hi {
                        assert(is_digit(s@[hi]));
                    }
                }
                assert(s@.subrange(i as int, j as int) =~= dec_of(v0 as nat));
            }
        }
        Some((v, j))
    }
}

/// A character the escaper leaves as it is.
pub open spec fn plain_char(c: char) -> bool {
    c != '"' && c != '\\' && (c as u32) >= 0x20
}

pub open spec fn plain_seq(s: Seq<char>) -> bool {
    forall|k: int| 0 <= k < s.len() ==> plain_char(#[trigger] s[k])
}

/// An escape-free name stands at position `i`, the closing quote right
/// after it.
pub open spec fn plain_str_at(s: Seq<char>, i: int, name: Seq<char>) -> bool {
    &&& 0 <= i
    &&& plain_seq(name)
    &&& i + name.len() < s.len()
    &&& s.subrange(i, i + name.len()) == name
    &&& s[i + name.len()] == '"'
}

/// Escaping leaves an escape-free text unchanged.
pub proof fn lemma_escape_plain(s: Seq<char>)
    requires
        plain_seq(s),
    ensures
        escape_of(s) == s,
    decreases s.len(),
{
    if s.len() == 0 {
        assert(escape_of(s) =~= s);
    } else {
        assert(plain_seq(s.drop_last()));
        lemma_escape_plain(s.drop_last());
        assert(plain_char(s.last()));
        assert(esc_char(s.last()) =~= seq![s.last()]);
        assert(escape_of(s) =~= s);
    }
}

/// The body of a JSON string literal starting at `i`, unescaped, up to and
/// including the closing quote. Only the escapes the serializer emits are
/// accepted; an escape-free name standing at `i` is always read back as
/// itself.
fn parse_string_body(s: &str, i: usize) -> (r: Option<(String, usize)>)
    requires
        i <= s@.len(),
    ensures
        r matches Some(p) ==> i < p.1 <= s@.len(),
        forall|name: Seq<char>| plain_str_at(s@, i as int, name) ==> (r matches Some(p)
            && p.0@ == name && p.1 == i + name.len() + 1),
{
    let n = s.unicode_len();
    let mut j = i;
    let mut out = String::new();
    while j < n
        invariant
            i <= j <= n,
            n == s@.len(),
            forall|name: Seq<char>| plain_str_at(s@, i as int, name) ==> j - i <= name.len()
                && out@ == name.take(j - i),
        decreases n - j,
    {
        let c = s.get_char(j);
        if c == '"' {
            proof {
                assert forall|name: Seq<char>| plain_str_at(s@, i as int, name) implies j - i
                    == name.len() && out@ == name && j + 1 == i + name.len() + 1 by {
                    if j - i < name.len() {
                        assert(s@.subrange(i as int, i + name.len())[j - i] == s@[j as int]);
                        assert(plain_char(name[j - i]));
                    }
                    assert(out@ =~= name);
                }
            }
            return Some((out, j + 1));
        }
        if c == '\\' {
            proof {
                assert forall|name: Seq<char>| plain_str_at(s@, i as int, name) implies false by {
                    if j - i < name.len() {
                        assert(s@.subrange(i as int, i + name.len())[j - i] == s@[j as int]);
                        assert(plain_char(name[j - i]));
                    } else {
                        assert(s@[i + name.len()] == '"');
                    }
                }
            }
            if n - j < 2 {
                return None;
            }
            let e = s.get_char(j + 1);
            if e == '"' {
                push_char(&mut out, '"');
                j = j + 2;
            } else if e == '\\' {
                push_char(&mut out, '\\');
                j = j + 2;
            } else if e == 'u' {
                if n - j < 6 {
                    return None;
                }
                if s.get_char(j + 2) != '0' || s.get_char(j + 3) != '0' {
                    return None;
                }
                let h1 = match hex_val(s.get_char(j + 4)) {
                    Some(h) => h,
                    None => {
                        return None;
                    },
                };
                let h2 = match hex_val(s.get_char(j + 5)) {
                    Some(h) => h,
                    None => {
                        return None;
                    },
                };
                let v = h1 * 16 + h2;
                if v >= 0x20 {
                    return None;
                }
                push_char(&mut out, (v as u8) as char);
                j = j + 6;
            } else {
                return None;
            }
        } else {
            proof {
                assert forall|name: Seq<char>| plain_str_at(s@, i as int, name) implies j - i
                    < name.len() && s@[j as int] == name[j - i] by {
                    if j - i < name.len() {
                        assert(s@.subrange(i as int, i + name.len())[j - i] == s@[j as int]);
                    } else {
                        assert(s@[i + name.len()] == '"');
                    }
                }
            }
            push_char(&mut out, c);
            proof {
                assert forall|name: Seq<char>| plain_str_at(s@, i as int, name) implies out@
                    == name.take(j - i + 1) by {
                    assert(name.take(j - i + 1).drop_last() =~= name.take(j - i));
                    assert(name.take(j - i + 1).last() == name[j - i]);
                    assert(out@ =~= name.take(j - i + 1));
                }
            }
            j = j + 1;
        }
    }
    proof {
        assert forall|name: Seq<char>| plain_str_at(s@, i as int, name) implies false by {
            assert(i + name.len() < n);
            assert(j - i <= name.len());
        }
    }
    None
}

fn hex_val(c: char) -> (r: Option<u32>)
    ensures
        r matches Some(v) ==> v < 16,
{
    let u = c as u32;
    if 48 <= u && u <= 57 {
        Some(u - 48)
    } else if 97 <= u && u <= 102 {
        Some(u - 87)
    } else {
        None
    }
}

/// The text of `st` stands at position `i`.
pub open spec fn status_at(s: Seq<char>, i: int, st: TaskStatus) -> bool {
    &&& 0 <= i
    &&& i + status_str(st).len() <= s.len()
    &&& s.subrange(i, i + status_str(st).len()) == status_str(st)
}

fn parse_status(s: &str, i: usize) -> (r: Option<(TaskStatus, usize)>)
    requires
        i <= s@.len(),
    ensures
        r matches Some(p) ==> i <= p.1 <= s@.len(),
        forall|st: TaskStatus| status_at(s@, i as int, st) ==> (r matches Some(p) && p.0 == st
            && p.1 == i + status_str(st).len()),
{
    proof {
        reveal_strlit("Todo");
        reveal_strlit("InProgress");
        reveal_strlit("Done");
    }
    match expect_lit(s, i, "Todo") {
        Some(j) => {
            proof {
                assert forall|st: TaskStatus| status_at(s@, i as int, st) implies st
                    == TaskStatus::Todo by {
                    assert(s@.subrange(i as int, i + "Todo"@.len())[0] == s@[i as int]);
                    assert(s@.subrange(i as int, i + status_str(st).len())[0] == s@[i as int]);
                }
            }
            Some((TaskStatus::Todo, j))
        },
        None => match expect_lit(s, i, "InProgress") {
            Some(j) => {
                proof {
                    assert forall|st: TaskStatus| status_at(s@, i as int, st) implies st
                        == TaskStatus::InProgress by {
                        assert(s@.subrange(i as int, i + "InProgress"@.len())[0] == s@[
                            i as int]);
                        assert(s@.subrange(i as int, i + status_str(st).len())[0] == s@[
                            i as int]);
                    }
                }
                Some((TaskStatus::InProgress, j))
            },
            None => match expect_lit(s, i, "Done") {
                Some(j) => {
                    proof {
                        assert forall|st: TaskStatus| status_at(s@, i as int, st) implies st
                            == TaskStatus::Done by {
                            assert(s@.subrange(i as int, i + "Done"@.len())[0] == s@[i as int]);
                            assert(s@.subrange(i as int, i + status_str(st).len())[0] == s@[
                                i as int]);
                        }
                    }
                    Some((TaskStatus::Done, j))
                },
                None => None,
            },
        },
    }
}

/// The canonical timestamp text is quote- and backslash-free (what the
/// formatting wrapper states of its result, read as a property of the
/// instant).
pub open spec fn ts_ok(u: int) -> bool {
    &&& rfc3339_of(u).len() == 30
    &&& forall|k: int|
        0 <= k < rfc3339_of(u).len() ==> (#[trigger] rfc3339_of(u)[k]) != '"' && rfc3339_of(u)[k]
            != '\\'
}

/// The timestamp whose view is the instant `u`.
pub open spec fn ts_of_instant(u: int) -> Timestamp {
    Timestamp { secs: (u / 1_000_000_000) as i64, nanos: (u % 1_000_000_000) as u32 }
}

proof fn lemma_ts_of_instant(u: int)
    requires
        crate::task::instant_wf(u),
    ensures
        ts_of_instant(u).wf(),
        ts_of_instant(u)@ == u,
{
    let q = u / 1_000_000_000;
    let r = u % 1_000_000_000;
    vstd::arithmetic::div_mod::lemma_fundamental_div_mod(u, 1_000_000_000);
    assert(0 <= q <= 253_402_300_799) by {
        assert(q * 1_000_000_000 <= u);
        if q > 253_402_300_799 {
            assert(q * 1_000_000_000 >= 253_402_300_800int * 1_000_000_000) by (nonlinear_arith)
                requires
                    q >= 253_402_300_800,
            ;
        }
        if q < 0 {
            assert(q * 1_000_000_000 <= -1_000_000_000) by (nonlinear_arith)
                requires
                    q <= -1,
            ;
        }
    }
}

/// The canonical text of the instant `u` stands at position `i`, the
/// closing quote right after it.
pub open spec fn ts_at(s: Seq<char>, i: int, u: int) -> bool {
    &&& 0 <= i
    &&& crate::task::instant_wf(u)
    &&& ts_ok(u)
    &&& i + 30 < s.len()
    &&& s.subrange(i, i + 30) == rfc3339_of(u)
    &&& s[i + 30] == '"'
}

/// A quoted timestamp starting at `i` (the opening quote already consumed):
/// the characters up to the closing quote, handed to the RFC 3339 parser. On
/// success the position of the closing quote, left for the caller; the
/// canonical text of any instant standing at `i` is read back as that
/// instant.
fn parse_ts(s: &str, i: usize) -> (r: Option<(Timestamp, usize)>)
    requires
        i <= s@.len(),
    ensures
        r matches Some(p) ==> i <= p.1 <= s@.len() && p.0.wf(),
        forall|u: int| ts_at(s@, i as int, u) ==> (r matches Some(p) && p.0@ == u && p.1 == i
            + 30),
{
    let n = s.unicode_len();
    let mut j = i;
    while j < n
        invariant
            i <= j <= n,
            n == s@.len(),
            forall|p: int| i <= p < j ==> (#[trigger] s@[p]) != '"' && s@[p] != '\\',
        decreases n - j,
    {
        let c = s.get_char(j);
        if c == '"' {
            proof {
                assert forall|u: int| ts_at(s@, i as int, u) implies j == i + 30 by {
                    if j < i + 30 {
                        assert(s@.subrange(i as int, i + 30)[j - i] == s@[j as int]);
                        assert(rfc3339_of(u)[j - i] != '"');
                    }
                    if j > i + 30 {
                        assert(s@[i + 30] != '"');
                    }
                }
            }
            let sub = s.substring_char(i, j);
            proof {
                assert forall|u: int| ts_at(s@, i as int, u) implies sub@ == rfc3339_of(
                    ts_of_instant(u)@,
                ) && ts_of_instant(u).wf() by {
                    lemma_ts_of_instant(u);
                }
            }
            return match crate::time::parse_rfc3339(sub) {
                Some(t) => {
                    if t.check_wf() {
                        proof {
                            assert forall|u: int| ts_at(s@, i as int, u) implies t@ == u by {
                                lemma_ts_of_instant(u);
                                assert(t == ts_of_instant(u));
                            }
                        }
                        Some((t, j))
                    } else {
                        proof {
                            assert forall|u: int| ts_at(s@, i as int, u) implies false by {
                                lemma_ts_of_instant(u);
                                assert(t == ts_of_instant(u));
                            }
                        }
                        None
                    }
                },
                None => {
                    proof {
                        assert forall|u: int| ts_at(s@, i as int, u) implies false by {
                            lemma_ts_of_instant(u);
                        }
                    }
                    None
                },
            };
        }
        if c == '\\' {
            proof {
                assert forall|u: int| ts_at(s@, i as int, u) implies false by {
                    if j < i + 30 {
                        assert(s@.subrange(i as int, i + 30)[j - i] == s@[j as int]);
                        assert(rfc3339_of(u)[j - i] != '\\');
                    } else if j == i + 30 {
                        assert(s@[i + 30] == '"');
                    } else {
                        assert(s@[i + 30] != '"');
                    }
                }
            }
            return None;
        }
        j = j + 1;
    }
    proof {
        assert forall|u: int| ts_at(s@, i as int, u) implies false by {
            assert(s@[i + 30] != '"');
        }
    }
    None
}

/// Splitting a known stretch of text at the seam of a concatenation.
proof fn lemma_peel(s: Seq<char>, i: int, a: Seq<char>, b: Seq<char>)
    requires
        0 <= i,
        i + a.len() + b.len() <= s.len(),
        s.subrange(i, i + a.len() + b.len()) == a + b,
    ensures
        s.subrange(i, i + a.len()) == a,
        s.subrange(i + a.len(), i + a.len() + b.len()) == b,
{
    assert forall|q: int| 0 <= q < a.len() + b.len() implies s[i + q] == (a + b)[q] by {
        assert(s.subrange(i, i + a.len() + b.len())[q] == s[i + q]);
    }
    assert(s.subrange(i, i + a.len()) =~= a);
    assert forall|q: int|
        0 <= q < b.len() implies s.subrange(i + a.len(), i + a.len() + b.len())[q] == b[q] by {
        assert(s[i + a.len() + q] == (a + b)[a.len() + q]);
    }
    assert(s.subrange(i + a.len(), i + a.len() + b.len()) =~= b);
}

/// The task object text for `tv` stands at position `i`, with an
/// escape-free name and canonical timestamp texts.
pub open spec fn task_at(s: Seq<char>, i: int, tv: TaskView) -> bool {
    &&& 0 <= i
    &&& plain_seq(tv.name)
    &&& crate::task::instant_wf(tv.created_at) && ts_ok(tv.created_at)
    &&& crate::task::instant_wf(tv.updated_at) && ts_ok(tv.updated_at)
    &&& i + task_json(tv).len() <= s.len()
    &&& s.subrange(i, i + task_json(tv).len()) == task_json(tv)
}

/// Where each field of a task object stands within its text.
proof fn lemma_task_peel(s: Seq<char>, i: int, tv: TaskView)
    requires
        task_at(s, i, tv),
    ensures
        ({
            let a = "{\n      \"id\": "@;
            let b = ",\n      \"name\": \""@;
            let c1 = ",\n      \"status\": \""@;
            let d = "\",\n      \"created_at\": \""@;
            let e = "\",\n      \"updated_at\": \""@;
            let f = "\"\n    }"@;
            let q1 = i + a.len();
            let q2 = q1 + dec_of(tv.id as nat).len();
            let q3 = q2 + b.len();
            let q4 = q3 + tv.name.len() + 1;
            let q5 = q4 + c1.len();
            let q6 = q5 + status_str(tv.status).len();
            let q7 = q6 + d.len();
            let q8 = q7 + 30 + e.len();
            &&& s.subrange(i, q1) == a
            &&& dec_at(s, q1, tv.id)
            &&& s.subrange(q2, q3) == b
            &&& plain_str_at(s, q3, tv.name)
            &&& s.subrange(q4, q5) == c1
            &&& status_at(s, q5, tv.status)
            &&& s.subrange(q6, q7) == d
            &&& ts_at(s, q7, tv.created_at)
            &&& s.subrange(q7 + 30, q8) == e
            &&& ts_at(s, q8, tv.updated_at)
            &&& s.subrange(q8 + 30, q8 + 30 + f.len()) == f
            &&& i + task_json(tv).len() == q8 + 30 + f.len()
        }),
{
    let a = "{\n      \"id\": "@;
    let b = ",\n      \"name\": \""@;
    let c0 = "\",\n      \"status\": \""@;
    let c1 = ",\n      \"status\": \""@;
    let d = "\",\n      \"created_at\": \""@;
    let e = "\",\n      \"updated_at\": \""@;
    let f = "\"\n    }"@;
    reveal_strlit("{\n      \"id\": ");
    reveal_strlit(",\n      \"name\": \"");
    reveal_strlit("\",\n      \"status\": \"");
    reveal_strlit(",\n      \"status\": \"");
    reveal_strlit("\",\n      \"created_at\": \"");
    reveal_strlit("\",\n      \"updated_at\": \"");
    reveal_strlit("\"\n    }");
    lemma_escape_plain(tv.name);
    let de = dec_of(tv.id as nat);
    let st = status_str(tv.status);
    let r1 = rfc3339_of(tv.created_at);
    let r2 = rfc3339_of(tv.updated_at);
    let x1 = a + de;
    let x2 = x1 + b;
    let x3 = x2 + tv.name;
    let x4 = x3 + c0;
    let x5 = x4 + st;
    let x6 = x5 + d;
    let x7 = x6 + r1;
    let x8 = x7 + e;
    let x9 = x8 + r2;
    assert(task_json(tv) == x9 + f);
    lemma_peel(s, i, x9, f);
    lemma_peel(s, i, x8, r2);
    lemma_peel(s, i, x7, e);
    lemma_peel(s, i, x6, r1);
    lemma_peel(s, i, x5, d);
    lemma_peel(s, i, x4, st);
    lemma_peel(s, i, x3, c0);
    lemma_peel(s, i, x2, tv.name);
    lemma_peel(s, i, x1, b);
    lemma_peel(s, i, a, de);
    let q1 = i + a.len();
    let q2 = q1 + de.len();
    let q3 = q2 + b.len();
    let p4 = q3 + tv.name.len();
    let q4 = p4 + 1;
    let q5 = q4 + c1.len();
    let q6 = q5 + st.len();
    let q7 = q6 + d.len();
    let q8 = q7 + 30 + e.len();
    // the id is followed by a comma, no digit
    assert(s[q2] == b[0]);
    assert((',' as u32) == 44);
    // the name is followed by the quote that opens the status literal
    assert(s[p4] == c0[0]);
    assert(s.subrange(q4, q5) =~= c1) by {
        assert(c0.skip(1) =~= c1);
        assert forall|q: int| 0 <= q < c1.len() implies s.subrange(q4, q5)[q] == c1[q] by {
            assert(s.subrange(p4, p4 + c0.len())[q + 1] == s[p4 + 1 + q]);
            assert(s.subrange(q4, q5)[q] == s[q4 + q]);
        }
    }
    // each timestamp is followed by the quote that opens the next literal
    assert(s[q7 + 30] == e[0]);
    assert(s[q8 + 30] == f[0]);
}

fn parse_task(s: &str, i: usize) -> (r: Option<(Task, usize)>)
    requires
        i <= s@.len(),
    ensures
        r matches Some(p) ==> i < p.1 <= s@.len() && p.0.created_at.wf()
            && p.0.updated_at.wf(),
        forall|tv: TaskView| task_at(s@, i as int, tv) ==> (r matches Some(p) && p.0@ == tv
            && p.1 == i + task_json(tv).len()),
{
    let ghost i0 = i as int;
    let n = s.unicode_len();
    proof {
        assert(s@.len() == n);
    }
    let j1 = match expect_lit(s, i, "{\n      \"id\": ") {
        Some(j) => j,
        None => {
            proof {
                assert forall|tv: TaskView| task_at(s@, i0, tv) implies false by {
                    lemma_task_peel(s@, i0, tv);
                }
            }
            return None;
        },
    };
    let (id, j2) = match parse_u64(s, j1) {
        Some(p) => {
            proof {
                assert forall|tv: TaskView| task_at(s@, i0, tv) implies p.0 == tv.id && p.1
                    == i0 + "{\n      \"id\": "@.len() + dec_of(tv.id as nat).len() by {
                    lemma_task_peel(s@, i0, tv);
                    assert(dec_at(s@, j1 as int, tv.id));
                }
            }
            p
        },
        None => {
            proof {
                assert forall|tv: TaskView| task_at(s@, i0, tv) implies false by {
                    lemma_task_peel(s@, i0, tv);
                }
            }
            return None;
        },
    };
    let j3 = match expect_lit(s, j2, ",\n      \"name\": \"") {
        Some(j) => j,
        None => {
            proof {
                assert forall|tv: TaskView| task_at(s@, i0, tv) implies false by {
                    lemma_task_peel(s@, i0, tv);
                }
            }
            return None;
        },
    };
    let (name, j4) = match parse_string_body(s, j3) {
        Some(p) => {
            proof {
                assert forall|tv: TaskView| task_at(s@, i0, tv) implies p.0@ == tv.name && p.1
                    == j3 + tv.name.len() + 1 by {
                    lemma_task_peel(s@, i0, tv);
                    assert(plain_str_at(s@, j3 as int, tv.name));
                }
            }
            p
        },
        None => {
            proof {
                assert forall|tv: TaskView| task_at(s@, i0, tv) implies false by {
                    lemma_task_peel(s@, i0, tv);
                }
            }
            return None;
        },
    };
    let j5 = match expect_lit(s, j4, ",\n      \"status\": \"") {
        Some(j) => j,
        None => {
            proof {
                assert forall|tv: TaskView| task_at(s@, i0, tv) implies false by {
                    lemma_task_peel(s@, i0, tv);
                }
            }
            return None;
        },
    };
    let (status, j6) = match parse_status(s, j5) {
        Some(p) => {
            proof {
                assert forall|tv: TaskView| task_at(s@, i0, tv) implies p.0 == tv.status && p.1
                    == j5 + status_str(tv.status).len() by {
                    lemma_task_peel(s@, i0, tv);
                    assert(status_at(s@, j5 as int, tv.status));
                }
            }
            p
        },
        None => {
            proof {
                assert forall|tv: TaskView| task_at(s@, i0, tv) implies false by {
                    lemma_task_peel(s@, i0, tv);
                }
            }
            return None;
        },
    };
    let j7 = match expect_lit(s, j6, "\",\n      \"created_at\": \"") {
        Some(j) => j,
        None => {
            proof {
                assert forall|tv: TaskView| task_at(s@, i0, tv) implies false by {
                    lemma_task_peel(s@, i0, tv);
                }
            }
            return None;
        },
    };
    let (created_at, j8) = match parse_ts(s, j7) {
        Some(p) => {
            proof {
                assert forall|tv: TaskView| task_at(s@, i0, tv) implies p.0@ == tv.created_at
                    && p.1 == j7 + 30 by {
                    lemma_task_peel(s@, i0, tv);
                    assert(ts_at(s@, j7 as int, tv.created_at));
                }
            }
            p
        },
        None => {
            proof {
                assert forall|tv: TaskView| task_at(s@, i0, tv) implies false by {
                    lemma_task_peel(s@, i0, tv);
                }
            }
            return None;
        },
    };
    let j9 = match expect_lit(s, j8, "\",\n      \"updated_at\": \"") {
        Some(j) => j,
        None => {
            proof {
                assert forall|tv: TaskView| task_at(s@, i0, tv) implies false by {
                    lemma_task_peel(s@, i0, tv);
                }
            }
            return None;
        },
    };
    let (updated_at, j10) = match parse_ts(s, j9) {
        Some(p) => {
            proof {
                assert forall|tv: TaskView| task_at(s@, i0, tv) implies p.0@ == tv.updated_at
                    && p.1 == j9 + 30 by {
                    lemma_task_peel(s@, i0, tv);
                    assert(ts_at(s@, j9 as int, tv.updated_at));
                }
            }
            p
        },
        None => {
            proof {
                assert forall|tv: TaskView| task_at(s@, i0, tv) implies false by {
                    lemma_task_peel(s@, i0, tv);
                }
            }
            return None;
        },
    };
    let j11 = match expect_lit(s, j10, "\"\n    }") {
        Some(j) => j,
        None => {
            proof {
                assert forall|tv: TaskView| task_at(s@, i0, tv) implies false by {
                    lemma_task_peel(s@, i0, tv);
                }
            }
            return None;
        },
    };
    let t = Task { id, name, status, created_at, updated_at };
    proof {
        assert forall|tv: TaskView| task_at(s@, i0, tv) implies t@ =~= tv && j11 == i0
            + task_json(tv).len() by {
            lemma_task_peel(s@, i0, tv);
        }
    }
    Some((t, j11))
}

/// What remains of the task list text from the `k`-th task on.
pub open spec fn items_from(ts: Seq<TaskView>, k: int) -> Seq<char>
    decreases ts.len() - k,
{
    if 0 <= k < ts.len() {
        sep_json(k) + task_json(ts[k]) + items_from(ts, k + 1)
    } else {
        Seq::empty()
    }
}

proof fn lemma_items_decompose(ts: Seq<TaskView>, k: int)
    requires
        0 <= k <= ts.len(),
    ensures
        items_json(ts) == items_json(ts.take(k)) + items_from(ts, k),
    decreases ts.len() - k,
{
    if k == ts.len() {
        assert(ts.take(k) =~= ts);
        assert(items_json(ts) =~= items_json(ts.take(k)) + items_from(ts, k));
    } else {
        lemma_items_decompose(ts, k + 1);
        assert(ts.take(k + 1).drop_last() =~= ts.take(k));
        assert(ts.take(k + 1).last() == ts[k]);
        assert(items_json(ts.take(k + 1)) == items_json(ts.take(k)) + sep_json(k) + task_json(
            ts[k],
        ));
        assert(items_json(ts) =~= items_json(ts.take(k)) + items_from(ts, k));
    }
}

/// The stretch in the middle of a concatenation.
proof fn lemma_mid(s: Seq<char>, a: Seq<char>, m: Seq<char>, b: Seq<char>)
    requires
        s == a + m + b,
    ensures
        s.len() == a.len() + m.len() + b.len(),
        s.subrange(a.len() as int, a.len() as int + m.len()) == m,
{
    assert forall|q: int|
        0 <= q < m.len() implies s.subrange(a.len() as int, a.len() as int + m.len())[q]
        == m[q] by {
        assert(s[a.len() as int + q] == (a + m + b)[a.len() as int + q]);
        assert((a + m + b)[a.len() as int + q] == (a + m)[a.len() as int + q]);
    }
    assert(s.subrange(a.len() as int, a.len() as int + m.len()) =~= m);
}

/// The whole document text of a collection whose names are escape-free and
/// whose timestamp texts are canonical.
pub open spec fn doc_at(s: Seq<char>, c: DataView) -> bool {
    &&& c.wf()
    &&& forall|k: int|
        0 <= k < c.tasks.len() ==> plain_seq((#[trigger] c.tasks[k]).name) && ts_ok(
            c.tasks[k].created_at,
        ) && ts_ok(c.tasks[k].updated_at)
    &&& s == doc_json(c)
}

/// Where the pieces of the document stand within its text.
proof fn lemma_doc_peel(s: Seq<char>, c: DataView)
    requires
        doc_at(s, c),
    ensures
        ({
            let l0 = "{\n  \"tasks\": ["@;
            let l1 = "],\n  \"id_counter\": "@;
            let l2 = "\n}"@;
            let body = tasks_json(c.tasks);
            let p1 = l0.len() + body.len();
            let p2 = p1 + l1.len();
            let p3 = p2 + dec_of(c.next_id as nat).len();
            &&& s.len() == p3 + l2.len()
            &&& s.subrange(0, l0.len() as int) == l0
            &&& s.subrange(l0.len() as int, p1 as int) == body
            &&& s.subrange(p1 as int, p2 as int) == l1
            &&& dec_at(s, p2 as int, c.next_id)
            &&& s.subrange(p3 as int, s.len() as int) == l2
            &&& c.tasks.len() == 0 ==> s[l0.len() as int] == ']'
        }),
{
    let l0 = "{\n  \"tasks\": ["@;
    let l1 = "],\n  \"id_counter\": "@;
    let l2 = "\n}"@;
    reveal_strlit("{\n  \"tasks\": [");
    reveal_strlit("],\n  \"id_counter\": ");
    reveal_strlit("\n}");
    let body = tasks_json(c.tasks);
    let de = dec_of(c.next_id as nat);
    let x1 = l0 + body;
    let x2 = x1 + l1;
    let x3 = x2 + de;
    assert(doc_json(c) == x3 + l2);
    assert(s.subrange(0, s.len() as int) =~= s);
    lemma_peel(s, 0, x3, l2);
    lemma_peel(s, 0, x2, de);
    lemma_peel(s, 0, x1, l1);
    lemma_peel(s, 0, l0, body);
    let p3 = l0.len() + body.len() + l1.len() + de.len();
    assert(s[p3 as int] == l2[0]);
    assert(('\n' as u32) == 10);
    if c.tasks.len() == 0 {
        assert(s[l0.len() as int] == l1[0]);
    }
}

/// Where the `k`-th task object and its separator stand within the
/// document.
#[verifier::rlimit(100)]
proof fn lemma_doc_task_at(s: Seq<char>, c: DataView, k: int)
    requires
        doc_at(s, c),
        0 <= k < c.tasks.len(),
    ensures
        ({
            let l0 = "{\n  \"tasks\": ["@;
            let sep = sep_json(k);
            let sp = l0.len() as int + items_json(c.tasks.take(k)).len();
            let pos = sp + sep.len();
            &&& s.subrange(sp, pos) == sep
            &&& s[sp] == (if k == 0 {
                '\n'
            } else {
                ','
            })
            &&& task_at(s, pos, c.tasks[k])
        }),
{
    let ts = c.tasks;
    let l0 = "{\n  \"tasks\": ["@;
    let l1 = "],\n  \"id_counter\": "@;
    let l2 = "\n}"@;
    let de = dec_of(c.next_id as nat);
    let tr = "\n  "@;
    reveal_strlit("\n    ");
    reveal_strlit(",\n    ");
    lemma_items_decompose(ts, k);
    let a = l0 + items_json(ts.take(k));
    let sep = sep_json(k);
    let tj = task_json(ts[k]);
    let rest = items_from(ts, k + 1) + tr + l1 + de + l2;
    assert(s =~= a + sep + (tj + rest));
    lemma_mid(s, a, sep, tj + rest);
    assert(s =~= (a + sep) + tj + rest);
    lemma_mid(s, a + sep, tj, rest);
    assert(s[a.len() as int] == sep[0]);
    assert(c.tasks[k].wf());
    assert(task_at(s, (a.len() + sep.len()) as int, ts[k]));
}

/// What follows the `k`-th task object: another separator before a further
/// task, the list trailer after the last one.
#[verifier::rlimit(100)]
proof fn lemma_doc_after_task(s: Seq<char>, c: DataView, k: int)
    requires
        doc_at(s, c),
        0 <= k < c.tasks.len(),
    ensures
        ({
            let l0 = "{\n  \"tasks\": ["@;
            let q = l0.len() as int + items_json(c.tasks.take(k + 1)).len();
            &&& k + 1 < c.tasks.len() ==> s.subrange(q, q + ",\n    "@.len()) == ",\n    "@
                && s[q] == ',' && q + ",\n    "@.len() <= s.len()
            &&& k + 1 == c.tasks.len() ==> s.subrange(q, q + "\n  "@.len()) == "\n  "@
                && s[q] == '\n' && q + "\n  "@.len() <= s.len()
        }),
{
    let ts = c.tasks;
    let l0 = "{\n  \"tasks\": ["@;
    let l1 = "],\n  \"id_counter\": "@;
    let l2 = "\n}"@;
    let de = dec_of(c.next_id as nat);
    let tr = "\n  "@;
    reveal_strlit(",\n    ");
    reveal_strlit("\n  ");
    if k + 1 < ts.len() {
        lemma_items_decompose(ts, k + 1);
        let a2 = l0 + items_json(ts.take(k + 1));
        let rest2 = task_json(ts[k + 1]) + items_from(ts, k + 2) + tr + l1 + de + l2;
        assert(s =~= a2 + ",\n    "@ + rest2);
        lemma_mid(s, a2, ",\n    "@, rest2);
        assert(s[a2.len() as int] == ",\n    "@[0]);
    } else {
        assert(ts.take(k + 1) =~= ts);
        let a3 = l0 + items_json(ts);
        assert(s =~= a3 + tr + (l1 + de + l2));
        lemma_mid(s, a3, tr, l1 + de + l2);
        assert(s[a3.len() as int] == tr[0]);
    }
}

/// The loop state while reading the task list: `k` tasks read so far, the
/// position standing at the start of the `k`-th task object.
spec fn doc_loop_inv(s: Seq<char>, i: int, k: int, vs: Seq<TaskView>) -> bool {
    forall|c: DataView| #[trigger] doc_at(s, c) ==> (k < c.tasks.len() && vs == c.tasks.take(k) && i
        == "{\n  \"tasks\": ["@.len() + items_json(c.tasks.take(k)).len() + sep_json(k).len())
}

/// The state just after reading the `k`-th task object.
spec fn doc_loop_post(s: Seq<char>, j: int, k: int, vs: Seq<TaskView>) -> bool {
    forall|c: DataView| #[trigger] doc_at(s, c) ==> (k < c.tasks.len() && vs == c.tasks.take(k + 1) && j
        == "{\n  \"tasks\": ["@.len() + items_json(c.tasks.take(k + 1)).len())
}

#[verifier::rlimit(100)]
proof fn lemma_step_task_some(s: Seq<char>, i: int, k: int, vs: Seq<TaskView>, t: TaskView, j: int)
    requires
        0 <= k,
        doc_loop_inv(s, i, k, vs),
        forall|tv: TaskView| #[trigger] task_at(s, i, tv) ==> t == tv && j == i + task_json(
            tv,
        ).len(),
    ensures
        doc_loop_post(s, j, k, vs.push(t)),
{
    assert forall|c: DataView| doc_at(s, c) implies (k < c.tasks.len() && vs.push(t)
        == c.tasks.take(k + 1) && j == "{\n  \"tasks\": ["@.len() + items_json(
        c.tasks.take(k + 1),
    ).len()) by {
        lemma_doc_task_at(s, c, k);
        assert(task_at(s, i, c.tasks[k]));
        assert(c.tasks.take(k + 1).drop_last() =~= c.tasks.take(k));
        assert(items_json(c.tasks.take(k + 1)) == items_json(c.tasks.take(k)) + sep_json(k)
            + task_json(c.tasks[k]));
        assert(vs.push(t) =~= c.tasks.take(k + 1));
    }
}

#[verifier::rlimit(100)]
proof fn lemma_step_task_none(s: Seq<char>, i: int, k: int, vs: Seq<TaskView>)
    requires
        0 <= k,
        doc_loop_inv(s, i, k, vs),
        forall|tv: TaskView| #[trigger] task_at(s, i, tv) ==> false,
    ensures
        forall|c: DataView| doc_at(s, c) ==> false,
{
    assert forall|c: DataView| doc_at(s, c) implies false by {
        lemma_doc_task_at(s, c, k);
        assert(task_at(s, i, c.tasks[k]));
    }
}

#[verifier::rlimit(100)]
proof fn lemma_step_sep_some(s: Seq<char>, j: int, k: int, vs: Seq<TaskView>)
    requires
        0 <= k,
        doc_loop_post(s, j, k, vs),
        0 <= j < s.len(),
        s[j] == ',',
    ensures
        doc_loop_inv(s, j + ",\n    "@.len(), k + 1, vs),
{
    reveal_strlit(",\n    ");
    assert forall|c: DataView| doc_at(s, c) implies (k + 1 < c.tasks.len() && vs
        == c.tasks.take(k + 1) && j + ",\n    "@.len() == "{\n  \"tasks\": ["@.len()
        + items_json(c.tasks.take(k + 1)).len() + sep_json(k + 1).len()) by {
        lemma_doc_after_task(s, c, k);
        if k + 1 == c.tasks.len() {
            assert(s[j] == '\n');
            assert(false);
        }
    }
}

#[verifier::rlimit(100)]
proof fn lemma_step_sep_none(s: Seq<char>, j: int, k: int, vs: Seq<TaskView>)
    requires
        0 <= k,
        doc_loop_post(s, j, k, vs),
        0 <= j < s.len(),
        s[j] == ',',
        !(j + ",\n    "@.len() <= s.len() && s.subrange(j, j + ",\n    "@.len())
            == ",\n    "@),
    ensures
        forall|c: DataView| doc_at(s, c) ==> false,
{
    reveal_strlit(",\n    ");
    assert forall|c: DataView| doc_at(s, c) implies false by {
        lemma_doc_after_task(s, c, k);
        if k + 1 == c.tasks.len() {
            assert(s[j] == '\n');
        }
    }
}

#[verifier::rlimit(100)]
proof fn lemma_step_break(s: Seq<char>, j: int, k: int, vs: Seq<TaskView>)
    requires
        0 <= k,
        doc_loop_post(s, j, k, vs),
        0 <= j,
        !(j < s.len() && s[j] == ','),
    ensures
        forall|c: DataView| doc_at(s, c) ==> (k + 1 == c.tasks.len() && vs == c.tasks && j
            == "{\n  \"tasks\": ["@.len() + items_json(c.tasks).len()),
{
    reveal_strlit(",\n    ");
    assert forall|c: DataView| doc_at(s, c) implies (k + 1 == c.tasks.len() && vs == c.tasks
        && j == "{\n  \"tasks\": ["@.len() + items_json(c.tasks).len()) by {
        lemma_doc_after_task(s, c, k);
        if k + 1 < c.tasks.len() {
            assert(s[j] == ',');
            assert(j < s.len());
            assert(false);
        }
        assert(c.tasks.take(k + 1) =~= c.tasks);
    }
}

/// Best-effort reading of a whole document. Whatever it returns is then
/// validated and re-serialized by `from_json`; the canonical document of a
/// collection with escape-free names is always read back as that collection.
#[verifier::rlimit(100)]
#[verifier::spinoff_prover]
fn parse_doc(s: &str) -> (r: Option<TaskData>)
    ensures
        r matches Some(d) ==> d.fields_wf(),
        forall|c: DataView| doc_at(s@, c) ==> (r matches Some(d) && d@ == c),
{
    let n = s.unicode_len();
    let mut i = match expect_lit(s, 0, "{\n  \"tasks\": [") {
        Some(j) => j,
        None => {
            proof {
                assert forall|c: DataView| doc_at(s@, c) implies false by {
                    lemma_doc_peel(s@, c);
                }
            }
            return None;
        },
    };
    let mut tasks: Vec<Task> = Vec::new();
    if i < n && s.get_char(i) == '\n' {
        proof {
            assert forall|c: DataView| doc_at(s@, c) implies c.tasks.len() > 0 by {
                lemma_doc_peel(s@, c);
            }
        }
        i = match expect_lit(s, i, "\n    ") {
            Some(j) => j,
            None => {
                proof {
                    assert forall|c: DataView| doc_at(s@, c) implies false by {
                        lemma_doc_task_at(s@, c, 0);
                        assert(c.tasks.take(0) =~= Seq::<TaskView>::empty());
                    }
                }
                return None;
            },
        };
        let ghost mut k: int = 0;
        proof {
            assert(tasks@ =~= Seq::<Task>::empty());
            assert forall|c: DataView| doc_at(s@, c) implies views_of(tasks@) == c.tasks.take(k)
                && i == "{\n  \"tasks\": ["@.len() + items_json(c.tasks.take(k)).len()
                + sep_json(k).len() by {
                assert(c.tasks.take(0) =~= Seq::<TaskView>::empty());
                assert(views_of(tasks@) =~= c.tasks.take(0));
            }
        }
        loop
            invariant_except_break
                i <= n,
                n == s@.len(),
                0 <= k,
                forall|m: int|
                    0 <= m < tasks@.len() ==> (#[trigger] tasks@[m]).created_at.wf()
                        && tasks@[m].updated_at.wf(),
                doc_loop_inv(s@, i as int, k, views_of(tasks@)),
            ensures
                i <= n,
                n == s@.len(),
                forall|m: int|
                    0 <= m < tasks@.len() ==> (#[trigger] tasks@[m]).created_at.wf()
                        && tasks@[m].updated_at.wf(),
                forall|c: DataView| doc_at(s@, c) ==> (views_of(tasks@) == c.tasks && i
                    == "{\n  \"tasks\": ["@.len() + items_json(c.tasks).len()),
            decreases n - i,
        {
            let ghost vs0 = views_of(tasks@);
            let (t, j) = match parse_task(s, i) {
                Some(p) => {
                    proof {
                        assert(forall|tv: TaskView| #[trigger] task_at(s@, i as int, tv) ==> p.0@
                            == tv && p.1 == i + task_json(tv).len());
                        lemma_step_task_some(s@, i as int, k, vs0, p.0@, p.1 as int);
                    }
                    p
                },
                None => {
                    proof {
                        assert(forall|tv: TaskView| #[trigger] task_at(s@, i as int, tv)
                            ==> false);
                        lemma_step_task_none(s@, i as int, k, vs0);
                    }
                    return None;
                },
            };
            tasks.push(t);
            proof {
                assert(views_of(tasks@) =~= vs0.push(t@));
            }
            i = j;
            if i < n && s.get_char(i) == ',' {
                i = match expect_lit(s, i, ",\n    ") {
                    Some(j2) => {
                        proof {
                            lemma_step_sep_some(s@, i as int, k, views_of(tasks@));
                        }
                        j2
                    },
                    None => {
                        proof {
                            lemma_step_sep_none(s@, i as int, k, views_of(tasks@));
                        }
                        return None;
                    },
                };
                proof {
                    k = k + 1;
                }
            } else {
                proof {
                    lemma_step_break(s@, i as int, k, views_of(tasks@));
                    k = k + 1;
                }
                break;
            }
        }
        i = match expect_lit(s, i, "\n  ") {
            Some(j) => j,
            None => {
                proof {
                    assert forall|c: DataView| doc_at(s@, c) implies false by {
                        lemma_doc_after_task(s@, c, c.tasks.len() - 1);
                        assert(c.tasks.take(c.tasks.len() as int) =~= c.tasks);
                    }
                }
                return None;
            },
        };
        proof {
            assert forall|c: DataView| doc_at(s@, c) implies i == "{\n  \"tasks\": ["@.len()
                + tasks_json(c.tasks).len() by {
                lemma_doc_after_task(s@, c, c.tasks.len() - 1);
                assert(c.tasks.take(c.tasks.len() as int) =~= c.tasks);
                reveal_strlit("\n  ");
            }
        }
    } else {
        proof {
            assert forall|c: DataView| doc_at(s@, c) implies c.tasks.len() == 0 && views_of(
                tasks@,
            ) == c.tasks && i == "{\n  \"tasks\": ["@.len() + tasks_json(c.tasks).len() by {
                lemma_doc_peel(s@, c);
                if c.tasks.len() > 0 {
                    lemma_doc_task_at(s@, c, 0);
                    assert(c.tasks.take(0) =~= Seq::<TaskView>::empty());
                    assert(s@[i as int] == '\n');
                    assert(i < n);
                }
                assert(views_of(tasks@) =~= c.tasks);
            }
        }
    }
    i = match expect_lit(s, i, "],\n  \"id_counter\": ") {
        Some(j) => j,
        None => {
            proof {
                assert forall|c: DataView| doc_at(s@, c) implies false by {
                    lemma_doc_peel(s@, c);
                }
            }
            return None;
        },
    };
    let (counter, i6) = match parse_u64(s, i) {
        Some(p) => p,
        None => {
            proof {
                assert forall|c: DataView| doc_at(s@, c) implies false by {
                    lemma_doc_peel(s@, c);
                    assert(dec_at(s@, i as int, c.next_id));
                }
            }
            return None;
        },
    };
    proof {
        assert forall|c: DataView| doc_at(s@, c) implies counter == c.next_id && i6
            == "{\n  \"tasks\": ["@.len() + tasks_json(c.tasks).len()
            + "],\n  \"id_counter\": "@.len() + dec_of(c.next_id as nat).len() by {
            lemma_doc_peel(s@, c);
            assert(dec_at(s@, i as int, c.next_id));
        }
    }
    i = match expect_lit(s, i6, "\n}") {
        Some(j) => j,
        None => {
            proof {
                assert forall|c: DataView| doc_at(s@, c) implies false by {
                    lemma_doc_peel(s@, c);
                    assert(s@.subrange(i6 as int, i6 + "\n}"@.len()) == "\n}"@);
                }
            }
            return None;
        },
    };
    if i != n {
        proof {
            assert forall|c: DataView| doc_at(s@, c) implies false by {
                lemma_doc_peel(s@, c);
            }
        }
        return None;
    }
    let d = TaskData { tasks, id_counter: counter };
    proof {
        assert forall|c: DataView| doc_at(s@, c) implies d@ =~= c by {}
    }
    Some(d)
}

/// Whether the collection satisfies the model invariant, decided at run
/// time.
fn check_valid(d: &TaskData) -> (b: bool)
    ensures
        b == d.inv(),
{
    let n = d.tasks.len();
    let mut i: usize = 0;
    while i < n
        invariant
            i <= n,
            n == d.tasks@.len(),
            forall|k: int|
                0 <= k < i ==> (#[trigger] d.tasks@[k]).created_at.wf()
                    && d.tasks@[k].updated_at.wf(),
            forall|k: int| 0 <= k < i ==> (#[trigger] d@.tasks[k]).wf(),
            forall|k: int| 0 <= k < i ==> (#[trigger] d@.tasks[k]).id < d@.next_id,
            forall|k: int, m: int|
                0 <= k < i && k < m < n ==> d@.tasks[k].id != d@.tasks[m].id,
        decreases n - i,
    {
        let t = &d.tasks[i];
        if !t.created_at.check_wf() || !t.updated_at.check_wf() {
            return false;
        }
        if !t.created_at.le(&t.updated_at) {
            proof {
                assert(!(d@.tasks[i as int].wf()));
            }
            return false;
        }
        if !(t.id < d.id_counter) {
            return false;
        }
        let mut k = i + 1;
        while k < n
            invariant
                i < k <= n,
                n == d.tasks@.len(),
                forall|m: int| i < m < k ==> d@.tasks[i as int].id != (#[trigger] d@.tasks[m]).id,
            decreases n - k,
        {
            if d.tasks[k].id == d.tasks[i].id {
                proof {
                    assert(d@.tasks[i as int].id == d@.tasks[k as int].id);
                    assert(!d@.wf());
                }
                return false;
            }
            k = k + 1;
        }
        proof {
            crate::task::lemma_ts_wf_instant(d.tasks@[i as int].created_at);
            crate::task::lemma_ts_wf_instant(d.tasks@[i as int].updated_at);
            assert(d@.tasks[i as int].wf());
        }
        i = i + 1;
    }
    true
}

impl TaskData {
    /// Whether this collection satisfies the model invariant, decided at run
    /// time; unverified callers can test it before asking for work.
    pub fn check_invariant(&self) -> (b: bool)
        ensures
            b == self.inv(),
    {
        check_valid(self)
    }

    /// Reads a backing document. Only the canonical text of a well-formed
    /// collection is accepted — whatever is returned, other than the empty
    /// fallback, re-serializes to exactly the input; and the canonical text
    /// of any collection whose names are escape-free comes back as exactly
    /// that collection, so a load undoes a save. Anything else — corrupt or
    /// invariant-breaking text, or a semantically equal document in some
    /// other formatting (different whitespace, field order or timestamp
    /// precision) — yields a fresh empty collection.
    pub fn from_json(s: &str) -> (d: TaskData)
        ensures
            d.inv(),
            d@ == DataView::empty_view() || doc_json(d@) == s@,
            forall|c: DataView| doc_at(s@, c) ==> d@ == c,
    {
        match parse_doc(s) {
            None => TaskData::empty(),
            Some(cand) => {
                if !check_valid(&cand) {
                    proof {
                        assert forall|c: DataView| doc_at(s@, c) implies false by {
                            assert(cand@ == c);
                            assert(cand.inv());
                        }
                    }
                    return TaskData::empty();
                }
                let ser = cand.to_json();
                let own = String::from_str(s);
                if ser == own {
                    cand
                } else {
                    proof {
                        assert forall|c: DataView| doc_at(s@, c) implies false by {
                            assert(cand@ == c);
                            assert(ser@ == doc_json(c));
                        }
                    }
                    TaskData::empty()
                }
            },
        }
    }

    /// What a load yields: a missing document (`None`) or one that does not
    /// read back as a canonical collection gives a fresh empty collection.
    pub fn load_from(content: Option<&str>) -> (d: TaskData)
        ensures
            d.inv(),
            content is None ==> d@ == DataView::empty_view(),
            content matches Some(s) ==> d@ == DataView::empty_view() || doc_json(d@) == s@,
            content matches Some(s) ==> forall|c: DataView| doc_at(s@, c) ==> d@ == c,
    {
        match content {
            None => TaskData::empty(),
            Some(s) => TaskData::from_json(s),
        }
    }
}

} // verus!
