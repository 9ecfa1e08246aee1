//! The save format: a single JSON document per session record, written and
//! parsed entirely here. The encoder is exact (its output is the spec-level
//! encoding of the record) and the parser is both sound (it accepts nothing
//! but exact encodings) and complete (it accepts every encoding and returns
//! the encoded record), so saving and loading round-trips field for field
//! and arbitrary garbage can never decode.

use crate::state::GameState;
use vstd::prelude::*;
use vstd::string::StrSliceExecFns;

verus! {

/// How one character appears inside a quoted string: quotes and backslashes
/// are escaped with a backslash, everything else stands as itself.
pub open spec fn esc_char(c: char) -> Seq<char> {
    if c == '"' || c == '\\' {
        seq!['\\', c]
    } else {
        seq![c]
    }
}

/// The escaped body of a quoted string.
pub open spec fn escape(s: Seq<char>) -> Seq<char>
    decreases s.len(),
{
    if s.len() == 0 {
        Seq::empty()
    } else {
        esc_char(s[0]) + escape(s.drop_first())
    }
}

/// A quoted, escaped string.
pub open spec fn enc_string(s: Seq<char>) -> Seq<char> {
    seq!['"'] + escape(s) + seq!['"']
}

pub open spec fn is_digit(c: char) -> bool {
    '0' <= c && c <= '9'
}

pub open spec fn digit_val(c: char) -> int {
    c as int - '0' as int
}

pub open spec fn digit_char(d: int) -> char {
    if d == 0 {
        '0'
    } else if d == 1 {
        '1'
    } else if d == 2 {
        '2'
    } else if d == 3 {
        '3'
    } else if d == 4 {
        '4'
    } else if d == 5 {
        '5'
    } else if d == 6 {
        '6'
    } else if d == 7 {
        '7'
    } else if d == 8 {
        '8'
    } else {
        '9'
    }
}

/// Unsigned decimal, most significant digit first, no leading zeros.
pub open spec fn enc_u64(n: nat) -> Seq<char>
    decreases n,
{
    if n < 10 {
        seq![digit_char(n as int)]
    } else {
        enc_u64(n / 10) + seq![digit_char((n % 10) as int)]
    }
}

/// Signed decimal: a minus sign for negative values, no negative zero.
pub open spec fn enc_i64(v: int) -> Seq<char> {
    if v < 0 {
        seq!['-'] + enc_u64((-v) as nat)
    } else {
        enc_u64(v as nat)
    }
}

pub open spec fn enc_bool(b: bool) -> Seq<char> {
    if b {
        "true"@
    } else {
        "false"@
    }
}

/// One key/value pair of the flags object.
pub open spec fn enc_flag_entry(e: (String, bool)) -> Seq<char> {
    enc_string(e.0@) + seq![':'] + enc_bool(e.1)
}

/// The entries after the first, each preceded by a comma.
pub open spec fn flags_tail(es: Seq<(String, bool)>) -> Seq<char>
    decreases es.len(),
{
    if es.len() == 0 {
        Seq::empty()
    } else {
        seq![','] + enc_flag_entry(es[0]) + flags_tail(es.drop_first())
    }
}

/// The comma-separated entries of the flags object.
pub open spec fn flags_body(es: Seq<(String, bool)>) -> Seq<char> {
    if es.len() == 0 {
        Seq::empty()
    } else {
        enc_flag_entry(es[0]) + flags_tail(es.drop_first())
    }
}

/// The flags object, in stored order.
pub open spec fn enc_flags(es: Seq<(String, bool)>) -> Seq<char> {
    seq!['{'] + flags_body(es) + seq!['}']
}

/// One key/value pair of the variables object.
pub open spec fn enc_var_entry(e: (String, i64)) -> Seq<char> {
    enc_string(e.0@) + seq![':'] + enc_i64(e.1 as int)
}

/// The entries after the first, each preceded by a comma.
pub open spec fn vars_tail(es: Seq<(String, i64)>) -> Seq<char>
    decreases es.len(),
{
    if es.len() == 0 {
        Seq::empty()
    } else {
        seq![','] + enc_var_entry(es[0]) + vars_tail(es.drop_first())
    }
}

/// The comma-separated entries of the variables object.
pub open spec fn vars_body(es: Seq<(String, i64)>) -> Seq<char> {
    if es.len() == 0 {
        Seq::empty()
    } else {
        enc_var_entry(es[0]) + vars_tail(es.drop_first())
    }
}

/// The variables object, in stored order.
pub open spec fn enc_vars(es: Seq<(String, i64)>) -> Seq<char> {
    seq!['{'] + vars_body(es) + seq!['}']
}

/// The whole save document: one JSON object with a fixed field order.
pub open spec fn enc_state(st: GameState) -> Seq<char> {
    "{\"current_course_id\":"@ + enc_string(st.current_course_id@)
        + ",\"course_version_seen\":"@ + enc_string(st.course_version_seen@)
        + ",\"current_quest_id\":"@ + enc_string(st.current_quest_id@)
        + ",\"current_chapter_index\":"@ + enc_u64(st.current_chapter_index as nat)
        + ",\"current_task_index\":"@ + enc_u64(st.current_task_index as nat) + ",\"flags\":"@
        + enc_flags(st.flags@) + ",\"variables\":"@ + enc_vars(st.variables@)
        + ",\"is_finished\":"@ + enc_bool(st.is_finished) + seq!['}']
}

/// Escaping one more character appends that character's escape.
proof fn lemma_escape_push(t: Seq<char>, c: char)
    ensures
        escape(t.push(c)) == escape(t) + esc_char(c),
    decreases t.len(),
{
    if t.len() == 0 {
        assert(t.push(c)[0] == c);
        assert(t.push(c).drop_first() =~= Seq::<char>::empty());
        assert(escape(t.push(c)) == esc_char(c) + escape(t.push(c).drop_first()));
        assert(escape(t.push(c).drop_first()) == Seq::<char>::empty());
        assert(escape(t) == Seq::<char>::empty());
        assert(escape(t.push(c)) =~= escape(t) + esc_char(c));
    } else {
        assert(t.push(c)[0] == t[0]);
        assert(t.push(c).drop_first() =~= t.drop_first().push(c));
        lemma_escape_push(t.drop_first(), c);
        assert(escape(t.push(c)) =~= escape(t) + esc_char(c));
    }
}

/// Appending an entry extends the body with a comma unless it is the first.
proof fn lemma_flags_tail_push(es: Seq<(String, bool)>, e: (String, bool))
    ensures
        flags_tail(es.push(e)) == flags_tail(es) + seq![','] + enc_flag_entry(e),
    decreases es.len(),
{
    if es.len() == 0 {
        assert(es.push(e)[0] == e);
        assert(es.push(e).drop_first() =~= Seq::<(String, bool)>::empty());
        assert(flags_tail(es.push(e)) == seq![','] + enc_flag_entry(e) + flags_tail(
            es.push(e).drop_first(),
        ));
        assert(flags_tail(es.push(e).drop_first()) == Seq::<char>::empty());
        assert(flags_tail(es) == Seq::<char>::empty());
        assert(flags_tail(es.push(e)) =~= flags_tail(es) + seq![','] + enc_flag_entry(e));
    } else {
        assert(es.push(e)[0] == es[0]);
        assert(es.push(e).drop_first() =~= es.drop_first().push(e));
        lemma_flags_tail_push(es.drop_first(), e);
        assert(flags_tail(es.push(e)) =~= flags_tail(es) + seq![','] + enc_flag_entry(e));
    }
}

proof fn lemma_flags_body_push(es: Seq<(String, bool)>, e: (String, bool))
    ensures
        es.len() == 0 ==> flags_body(es.push(e)) == enc_flag_entry(e),
        es.len() > 0 ==> flags_body(es.push(e)) == flags_body(es) + seq![','] + enc_flag_entry(e),
{
    if es.len() == 0 {
        assert(es.push(e)[0] == e);
        assert(es.push(e).drop_first() =~= Seq::<(String, bool)>::empty());
        assert(flags_body(es.push(e)) =~= enc_flag_entry(e));
    } else {
        assert(es.push(e)[0] == es[0]);
        assert(es.push(e).drop_first() =~= es.drop_first().push(e));
        lemma_flags_tail_push(es.drop_first(), e);
        assert(flags_body(es.push(e)) =~= flags_body(es) + seq![','] + enc_flag_entry(e));
    }
}

proof fn lemma_vars_tail_push(es: Seq<(String, i64)>, e: (String, i64))
    ensures
        vars_tail(es.push(e)) == vars_tail(es) + seq![','] + enc_var_entry(e),
    decreases es.len(),
{
    if es.len() == 0 {
        assert(es.push(e)[0] == e);
        assert(es.push(e).drop_first() =~= Seq::<(String, i64)>::empty());
        assert(vars_tail(es.push(e)) == seq![','] + enc_var_entry(e) + vars_tail(
            es.push(e).drop_first(),
        ));
        assert(vars_tail(es.push(e).drop_first()) == Seq::<char>::empty());
        assert(vars_tail(es) == Seq::<char>::empty());
        assert(vars_tail(es.push(e)) =~= vars_tail(es) + seq![','] + enc_var_entry(e));
    } else {
        assert(es.push(e)[0] == es[0]);
        assert(es.push(e).drop_first() =~= es.drop_first().push(e));
        lemma_vars_tail_push(es.drop_first(), e);
        assert(vars_tail(es.push(e)) =~= vars_tail(es) + seq![','] + enc_var_entry(e));
    }
}

proof fn lemma_vars_body_push(es: Seq<(String, i64)>, e: (String, i64))
    ensures
        es.len() == 0 ==> vars_body(es.push(e)) == enc_var_entry(e),
        es.len() > 0 ==> vars_body(es.push(e)) == vars_body(es) + seq![','] + enc_var_entry(e),
{
    if es.len() == 0 {
        assert(es.push(e)[0] == e);
        assert(es.push(e).drop_first() =~= Seq::<(String, i64)>::empty());
        assert(vars_body(es.push(e)) =~= enc_var_entry(e));
    } else {
        assert(es.push(e)[0] == es[0]);
        assert(es.push(e).drop_first() =~= es.drop_first().push(e));
        lemma_vars_tail_push(es.drop_first(), e);
        assert(vars_body(es.push(e)) =~= vars_body(es) + seq![','] + enc_var_entry(e));
    }
}

/// Appends the escaped body of the string.
#[verifier::loop_isolation(false)]
fn push_escaped(out: &mut String, s: &str)
    ensures
        final(out)@ == old(out)@ + escape(s@),
{
    let n = s.unicode_len();
    let mut i: usize = 0;
    proof {
        assert(s@.take(0) =~= Seq::<char>::empty());
        assert(out@ + escape(s@.take(0)) =~= out@);
    }
    while i < n
        invariant
            n == s@.len(),
            i <= n,
            out@ == old(out)@ + escape(s@.take(i as int)),
        decreases n - i,
    {
        let c = s.get_char(i);
        proof {
            assert(s@.take(i as int + 1) =~= s@.take(i as int).push(s@[i as int]));
            lemma_escape_push(s@.take(i as int), s@[i as int]);
        }
        if c == '"' || c == '\\' {
            out.push('\\');
            out.push(c);
            proof {
                assert(out@ =~= old(out)@ + escape(s@.take(i as int + 1)));
            }
        } else {
            out.push(c);
            proof {
                assert(out@ =~= old(out)@ + escape(s@.take(i as int + 1)));
            }
        }
        i += 1;
    }
    proof {
        assert(s@.take(n as int) =~= s@);
    }
}

/// Appends the quoted, escaped string.
fn push_enc_string(out: &mut String, s: &str)
    ensures
        final(out)@ == old(out)@ + enc_string(s@),
{
    out.push('"');
    push_escaped(out, s);
    out.push('"');
    proof {
        assert(out@ =~= old(out)@ + enc_string(s@));
    }
}

/// One decimal digit.
fn digit_to_char(d: u64) -> (c: char)
    requires
        d < 10,
    ensures
        c == digit_char(d as int),
{
    match d {
        0 => '0',
        1 => '1',
        2 => '2',
        3 => '3',
        4 => '4',
        5 => '5',
        6 => '6',
        7 => '7',
        8 => '8',
        _ => '9',
    }
}

/// Appends the unsigned decimal form.
fn push_u64(out: &mut String, n: u64)
    ensures
        final(out)@ == old(out)@ + enc_u64(n as nat),
    decreases n,
{
    if n < 10 {
        out.push(digit_to_char(n));
    } else {
        push_u64(out, n / 10);
        out.push(digit_to_char(n % 10));
        proof {
            assert(out@ =~= old(out)@ + enc_u64(n as nat));
        }
    }
}

/// Appends the signed decimal form.
fn push_i64(out: &mut String, v: i64)
    ensures
        final(out)@ == old(out)@ + enc_i64(v as int),
{
    if v >= 0 {
        push_u64(out, v as u64);
    } else {
        out.push('-');
        let mag: u64 = ((-(v + 1)) as u64) + 1;
        proof {
            assert(mag as int == -(v as int));
        }
        push_u64(out, mag);
        proof {
            assert(out@ =~= old(out)@ + enc_i64(v as int));
        }
    }
}

/// Appends `true` or `false`.
fn push_bool(out: &mut String, b: bool)
    ensures
        final(out)@ == old(out)@ + enc_bool(b),
{
    if b {
        out.append("true");
    } else {
        out.append("false");
    }
}

/// Appends the flags object.
#[verifier::loop_isolation(false)]
fn push_flags(out: &mut String, entries: &Vec<(String, bool)>)
    ensures
        final(out)@ == old(out)@ + enc_flags(entries@),
{
    out.push('{');
    let mut i: usize = 0;
    proof {
        assert(entries@.take(0) =~= Seq::<(String, bool)>::empty());
        assert(out@ =~= old(out)@ + seq!['{'] + flags_body(entries@.take(0)));
    }
    while i < entries.len()
        invariant
            i <= entries@.len(),
            out@ == old(out)@ + seq!['{'] + flags_body(entries@.take(i as int)),
        decreases entries@.len() - i,
    {
        proof {
            assert(entries@.take(i as int + 1) =~= entries@.take(i as int).push(
                entries@[i as int],
            ));
            lemma_flags_body_push(entries@.take(i as int), entries@[i as int]);
        }
        if i > 0 {
            out.push(',');
        }
        push_enc_string(out, entries[i].0.as_str());
        out.push(':');
        push_bool(out, entries[i].1);
        proof {
            assert(out@ =~= old(out)@ + seq!['{'] + flags_body(entries@.take(i as int + 1)));
        }
        i += 1;
    }
    out.push('}');
    proof {
        assert(entries@.take(entries@.len() as int) =~= entries@);
        assert(out@ =~= old(out)@ + enc_flags(entries@));
    }
}

/// Appends the variables object.
#[verifier::loop_isolation(false)]
fn push_vars(out: &mut String, entries: &Vec<(String, i64)>)
    ensures
        final(out)@ == old(out)@ + enc_vars(entries@),
{
    out.push('{');
    let mut i: usize = 0;
    proof {
        assert(entries@.take(0) =~= Seq::<(String, i64)>::empty());
        assert(out@ =~= old(out)@ + seq!['{'] + vars_body(entries@.take(0)));
    }
    while i < entries.len()
        invariant
            i <= entries@.len(),
            out@ == old(out)@ + seq!['{'] + vars_body(entries@.take(i as int)),
        decreases entries@.len() - i,
    {
        proof {
            assert(entries@.take(i as int + 1) =~= entries@.take(i as int).push(
                entries@[i as int],
            ));
            lemma_vars_body_push(entries@.take(i as int), entries@[i as int]);
        }
        if i > 0 {
            out.push(',');
        }
        push_enc_string(out, entries[i].0.as_str());
        out.push(':');
        push_i64(out, entries[i].1);
        proof {
            assert(out@ =~= old(out)@ + seq!['{'] + vars_body(entries@.take(i as int + 1)));
        }
        i += 1;
    }
    out.push('}');
    proof {
        assert(entries@.take(entries@.len() as int) =~= entries@);
        assert(out@ =~= old(out)@ + enc_vars(entries@));
    }
}

/// Escaping distributes over concatenation.
proof fn lemma_escape_concat(a: Seq<char>, b: Seq<char>)
    ensures
        escape(a + b) == escape(a) + escape(b),
    decreases a.len(),
{
    if a.len() == 0 {
        assert(a + b =~= b);
        assert(escape(a) == Seq::<char>::empty());
        assert(escape(a) + escape(b) =~= escape(b));
    } else {
        assert((a + b)[0] == a[0]);
        assert((a + b).drop_first() =~= a.drop_first() + b);
        lemma_escape_concat(a.drop_first(), b);
        assert(escape(a + b) =~= escape(a) + escape(b));
    }
}

/// The anatomy of a quoted string sitting inside a larger text: where its
/// quotes are, how its escaped body lines up with the text, and how the
/// body splits around any prefix of the encoded string.
proof fn string_body_facts(sv: Seq<char>, i: int, j: int, t: Seq<char>, k: int)
    requires
        0 <= i,
        i <= j <= sv.len(),
        sv.subrange(i, j) == enc_string(t),
        0 <= k <= t.len(),
    ensures
        j == i + 2 + escape(t).len(),
        sv[i] == '"',
        sv[j - 1] == '"',
        escape(t) == escape(t.take(k)) + escape(t.skip(k)),
        forall|m: int| 0 <= m < escape(t).len() ==> sv[i + 1 + m] == escape(t)[m],
        k < t.len() ==> escape(t.skip(k)) == esc_char(t[k]) + escape(t.skip(k + 1)),
{
    let enc = sv.subrange(i, j);
    assert(enc.len() == 2 + escape(t).len());
    assert(enc[0] == sv[i]);
    assert(enc[0] == '"');
    assert(enc[enc.len() - 1] == sv[j - 1]);
    assert(enc[enc.len() - 1] == '"');
    assert(t =~= t.take(k) + t.skip(k));
    lemma_escape_concat(t.take(k), t.skip(k));
    assert(escape(t) == escape(t.take(k) + t.skip(k)));
    assert forall|m: int| 0 <= m < escape(t).len() implies sv[i + 1 + m] == escape(t)[m] by {
        assert(enc[1 + m] == sv[i + 1 + m]);
        assert(enc[1 + m] == escape(t)[m]);
    }
    if k < t.len() {
        let rest = t.skip(k);
        assert(rest.len() > 0);
        assert(rest[0] == t[k]);
        assert(rest.drop_first() =~= t.skip(k + 1));
    }
}

/// Where the parser's cursor stands inside a quoted string: the text shows
/// exactly the escape of the next encoded character.
proof fn char_at_cursor(sv: Seq<char>, i: int, j: int, t: Seq<char>, k: int, p: int)
    requires
        0 <= i,
        i <= j <= sv.len(),
        sv.subrange(i, j) == enc_string(t),
        0 <= k < t.len(),
        p == i + 1 + escape(t.take(k)).len(),
    ensures
        i + 1 <= p,
        p + esc_char(t[k]).len() <= j - 1,
        sv[p] == esc_char(t[k])[0],
        esc_char(t[k]).len() == 2 ==> sv[p + 1] == esc_char(t[k])[1],
{
    string_body_facts(sv, i, j, t, k);
    let m = escape(t.take(k)).len() as int;
    assert(escape(t) == escape(t.take(k)) + escape(t.skip(k)));
    assert(escape(t.skip(k)) == esc_char(t[k]) + escape(t.skip(k + 1)));
    assert(escape(t).len() == m + esc_char(t[k]).len() + escape(t.skip(k + 1)).len());
    assert(escape(t)[m] == escape(t.skip(k))[0]);
    assert(escape(t.skip(k))[0] == esc_char(t[k])[0]);
    assert(sv[i + 1 + m] == escape(t)[m]);
    if esc_char(t[k]).len() == 2 {
        assert(escape(t)[m + 1] == escape(t.skip(k))[1]);
        assert(escape(t.skip(k))[1] == esc_char(t[k])[1]);
        assert(sv[i + 1 + m + 1] == escape(t)[m + 1]);
    }
}

/// Parses a quoted string with escapes, building the unescaped value.
#[verifier::loop_isolation(false)]
fn parse_string(s: &str, i: usize) -> (r: Option<(String, usize)>)
    ensures
        r matches Some(p) ==> (i < p.1 <= s@.len() && s@.subrange(i as int, p.1 as int)
            == enc_string(p.0@)),
        forall|t: Seq<char>, j: int|
            #![trigger s@.subrange(i as int, j), enc_string(t)]
            i <= j <= s@.len() && s@.subrange(i as int, j) == enc_string(t) ==> (r matches Some(p)
                && p.0@ == t && p.1 == j),
{
    let n = s.unicode_len();
    if i >= n {
        proof {
            assert forall|t: Seq<char>, j: int|
                i <= j <= s@.len() && s@.subrange(i as int, j) == enc_string(t) implies false by {
                string_body_facts(s@, i as int, j, t, 0);
            }
        }
        return None;
    }
    if s.get_char(i) != '"' {
        proof {
            assert forall|t: Seq<char>, j: int|
                i <= j <= s@.len() && s@.subrange(i as int, j) == enc_string(t) implies false by {
                string_body_facts(s@, i as int, j, t, 0);
            }
        }
        return None;
    }
    let mut out = String::new();
    let mut p: usize = i + 1;
    proof {
        assert(escape(out@) == Seq::<char>::empty());
        assert(escape(out@) =~= s@.subrange(i as int + 1, p as int));
        assert forall|t: Seq<char>, j: int|
            i <= j <= n && s@.subrange(i as int, j) == enc_string(t) implies (out@.len() <= t.len()
            && out@ == t.take(out@.len() as int) && p <= j - 1) by {
            string_body_facts(s@, i as int, j, t, 0);
            assert(out@ =~= t.take(0));
        }
    }
    while p < n
        invariant
            n == s@.len(),
            i + 1 <= p <= n,
            s@[i as int] == '"',
            escape(out@) == s@.subrange(i as int + 1, p as int),
            forall|t: Seq<char>, j: int|
                #![trigger s@.subrange(i as int, j), enc_string(t)]
                i <= j <= n && s@.subrange(i as int, j) == enc_string(t) ==> (out@.len() <= t.len()
                    && out@ == t.take(out@.len() as int) && p <= j - 1),
        decreases n - p,
    {
        let c = s.get_char(p);
        let ghost k = out@.len() as int;
        let ghost prev = out@;
        if c == '"' {
            proof {
                assert forall|t: Seq<char>, j: int|
                    i <= j <= s@.len() && s@.subrange(i as int, j) == enc_string(t) implies (out@
                    == t && p + 1 == j) by {
                    string_body_facts(s@, i as int, j, t, k);
                    assert(prev == t.take(k));
                    assert(escape(t.take(k)).len() == p - i - 1);
                    if k < t.len() {
                        char_at_cursor(s@, i as int, j, t, k, p as int);
                        assert(s@[p as int] == esc_char(t[k])[0]);
                        assert(esc_char(t[k])[0] != '"');
                        assert(false);
                    }
                    assert(out@ =~= t);
                    assert(escape(t.skip(k)) == Seq::<char>::empty());
                    assert(escape(t).len() == p - i - 1);
                    assert(p + 1 == j);
                }
                assert(s@.subrange(i as int, p as int + 1) =~= enc_string(out@));
            }
            return Some((out, p + 1));
        } else if c == '\\' {
            if p + 1 >= n {
                proof {
                    assert forall|t: Seq<char>, j: int|
                        i <= j <= s@.len() && s@.subrange(i as int, j) == enc_string(
                            t,
                        ) implies false by {
                        string_body_facts(s@, i as int, j, t, k);
                        assert(prev == t.take(k));
                        assert(escape(t.take(k)).len() == p - i - 1);
                        assert(k < t.len()) by {
                            if k == t.len() {
                                assert(escape(t.skip(k)) == Seq::<char>::empty());
                                assert(escape(t).len() == p - i - 1);
                                assert(p == j - 1);
                                assert(s@[j - 1] == '"');
                            }
                        }
                        char_at_cursor(s@, i as int, j, t, k, p as int);
                        assert(esc_char(t[k]).len() == 2) by {
                            if esc_char(t[k]).len() == 1 {
                                assert(esc_char(t[k])[0] == t[k]);
                                assert(t[k] != '"' && t[k] != '\\');
                                assert(s@[p as int] == t[k]);
                            }
                        }
                        assert(p + 2 <= j - 1);
                        assert(j <= n);
                        assert(false);
                    }
                }
                return None;
            }
            let d = s.get_char(p + 1);
            if d == '"' || d == '\\' {
                out.push(d);
                proof {
                    lemma_escape_push(prev, d);
                    assert(prev.push(d) =~= out@);
                    assert(escape(out@) == escape(prev) + esc_char(d));
                    assert(esc_char(d) =~= seq!['\\', d]);
                    assert(escape(out@) =~= s@.subrange(i as int + 1, p as int + 2));
                    assert forall|t: Seq<char>, j: int|
                        i <= j <= n && s@.subrange(i as int, j) == enc_string(t) implies (
                    out@.len() <= t.len() && out@ == t.take(out@.len() as int) && p + 2 <= j
                        - 1) by {
                        string_body_facts(s@, i as int, j, t, k);
                        assert(prev == t.take(k));
                        assert(escape(t.take(k)).len() == p - i - 1);
                        assert(k < t.len()) by {
                            if k == t.len() {
                                assert(escape(t.skip(k)) == Seq::<char>::empty());
                                assert(escape(t).len() == p - i - 1);
                                assert(p == j - 1);
                                assert(s@[j - 1] == '"');
                            }
                        }
                        char_at_cursor(s@, i as int, j, t, k, p as int);
                        assert(esc_char(t[k]).len() == 2) by {
                            if esc_char(t[k]).len() == 1 {
                                assert(esc_char(t[k])[0] == t[k]);
                                assert(t[k] != '"' && t[k] != '\\');
                                assert(s@[p as int] == t[k]);
                            }
                        }
                        assert(s@[p as int + 1] == esc_char(t[k])[1]);
                        assert(t[k] == d);
                        assert(t.take(k + 1) =~= t.take(k).push(t[k]));
                        assert(out@ == t.take(k + 1));
                        lemma_escape_concat(t.take(k + 1), t.skip(k + 1));
                        assert(t.take(k + 1) + t.skip(k + 1) =~= t);
                        assert(escape(t) == escape(t.take(k + 1)) + escape(t.skip(k + 1)));
                        lemma_escape_push(t.take(k), t[k]);
                        assert(escape(t.take(k + 1)).len() == p + 2 - i - 1);
                        assert(p + 2 <= j - 1);
                    }
                }
                p = p + 2;
            } else {
                proof {
                    assert forall|t: Seq<char>, j: int|
                        i <= j <= s@.len() && s@.subrange(i as int, j) == enc_string(
                            t,
                        ) implies false by {
                        string_body_facts(s@, i as int, j, t, k);
                        assert(prev == t.take(k));
                        assert(escape(t.take(k)).len() == p - i - 1);
                        assert(k < t.len()) by {
                            if k == t.len() {
                                assert(escape(t.skip(k)) == Seq::<char>::empty());
                                assert(escape(t).len() == p - i - 1);
                                assert(p == j - 1);
                                assert(s@[j - 1] == '"');
                            }
                        }
                        char_at_cursor(s@, i as int, j, t, k, p as int);
                        assert(esc_char(t[k]).len() == 2) by {
                            if esc_char(t[k]).len() == 1 {
                                assert(esc_char(t[k])[0] == t[k]);
                                assert(t[k] != '"' && t[k] != '\\');
                                assert(s@[p as int] == t[k]);
                            }
                        }
                        assert(s@[p as int + 1] == esc_char(t[k])[1]);
                        assert(d == t[k]);
                        assert(t[k] == '"' || t[k] == '\\');
                        assert(false);
                    }
                }
                return None;
            }
        } else {
            out.push(c);
            proof {
                lemma_escape_push(prev, c);
                assert(prev.push(c) =~= out@);
                assert(escape(out@) == escape(prev) + esc_char(c));
                assert(esc_char(c) =~= seq![c]);
                assert(escape(out@) =~= s@.subrange(i as int + 1, p as int + 1));
                assert forall|t: Seq<char>, j: int|
                    i <= j <= n && s@.subrange(i as int, j) == enc_string(t) implies (out@.len()
                    <= t.len() && out@ == t.take(out@.len() as int) && p + 1 <= j - 1) by {
                    string_body_facts(s@, i as int, j, t, k);
                    assert(prev == t.take(k));
                    assert(escape(t.take(k)).len() == p - i - 1);
                    assert(k < t.len()) by {
                        if k == t.len() {
                            assert(escape(t.skip(k)) == Seq::<char>::empty());
                            assert(escape(t).len() == p - i - 1);
                            assert(p == j - 1);
                            assert(s@[j - 1] == '"');
                        }
                    }
                    char_at_cursor(s@, i as int, j, t, k, p as int);
                    assert(esc_char(t[k]).len() == 1) by {
                        if esc_char(t[k]).len() == 2 {
                            assert(esc_char(t[k])[0] == '\\');
                        }
                    }
                    assert(esc_char(t[k])[0] == t[k]);
                    assert(t[k] == c);
                    assert(t.take(k + 1) =~= t.take(k).push(t[k]));
                    assert(out@ == t.take(k + 1));
                    lemma_escape_concat(t.take(k + 1), t.skip(k + 1));
                    assert(t.take(k + 1) + t.skip(k + 1) =~= t);
                    assert(escape(t) == escape(t.take(k + 1)) + escape(t.skip(k + 1)));
                    lemma_escape_push(t.take(k), t[k]);
                    assert(escape(t.take(k + 1)).len() == p + 1 - i - 1);
                    assert(p + 1 <= j - 1);
                }
            }
            p = p + 1;
        }
    }
    proof {
        assert forall|t: Seq<char>, j: int|
            i <= j <= s@.len() && s@.subrange(i as int, j) == enc_string(t) implies false by {
            string_body_facts(s@, i as int, j, t, out@.len() as int);
        }
    }
    None
}

/// Value of a digit sequence read as a decimal number.
pub open spec fn seq_val(ds: Seq<char>) -> int
    decreases ds.len(),
{
    if ds.len() == 0 {
        0
    } else {
        seq_val(ds.drop_last()) * 10 + digit_val(ds.last())
    }
}

pub open spec fn all_digits(ds: Seq<char>) -> bool {
    forall|k: int| 0 <= k < ds.len() ==> is_digit(#[trigger] ds[k])
}

/// A digit sequence has a non-negative value.
proof fn lemma_seq_val_nonneg(ds: Seq<char>)
    requires
        all_digits(ds),
    ensures
        seq_val(ds) >= 0,
    decreases ds.len(),
{
    if ds.len() > 0 {
        assert(all_digits(ds.drop_last())) by {
            assert(forall|k: int|
                0 <= k < ds.drop_last().len() ==> ds.drop_last()[k] == ds[k] && is_digit(
                    #[trigger] ds[k],
                ));
        }
        lemma_seq_val_nonneg(ds.drop_last());
        assert(is_digit(ds.last()));
    }
}

/// A digit sequence without a leading zero has a positive value.
proof fn lemma_seq_val_pos(ds: Seq<char>)
    requires
        all_digits(ds),
        ds.len() >= 1,
        ds[0] != '0',
    ensures
        seq_val(ds) >= 1,
        ds.len() >= 2 ==> seq_val(ds) >= 10,
    decreases ds.len(),
{
    if ds.len() == 1 {
        assert(ds.drop_last() =~= Seq::<char>::empty());
        assert(seq_val(ds.drop_last()) == 0);
        assert(ds.last() == ds[0]);
        assert(is_digit(ds[0]));
        assert(seq_val(ds) == digit_val(ds[0]));
    } else {
        assert(all_digits(ds.drop_last())) by {
            assert(forall|k: int|
                0 <= k < ds.drop_last().len() ==> ds.drop_last()[k] == ds[k] && is_digit(
                    #[trigger] ds[k],
                ));
        }
        assert(ds.drop_last()[0] == ds[0]);
        lemma_seq_val_pos(ds.drop_last());
        assert(is_digit(ds.last()));
    }
}

/// Every prefix of a digit sequence has a value no larger than the whole.
proof fn lemma_seq_val_prefix_le(ds: Seq<char>, m: int)
    requires
        all_digits(ds),
        0 <= m <= ds.len(),
    ensures
        seq_val(ds.take(m)) <= seq_val(ds),
    decreases ds.len(),
{
    if m == ds.len() {
        assert(ds.take(m) =~= ds);
    } else {
        assert(all_digits(ds.drop_last())) by {
            assert(forall|k: int|
                0 <= k < ds.drop_last().len() ==> ds.drop_last()[k] == ds[k] && is_digit(
                    #[trigger] ds[k],
                ));
        }
        assert(ds.take(m) =~= ds.drop_last().take(m));
        lemma_seq_val_prefix_le(ds.drop_last(), m);
        lemma_seq_val_nonneg(ds.drop_last());
        assert(is_digit(ds.last()));
    }
}

/// The decimal encoding is made of digits, has no leading zero, and reads
/// back as the encoded number.
proof fn lemma_enc_u64_shape(n: nat)
    ensures
        enc_u64(n).len() >= 1,
        all_digits(enc_u64(n)),
        enc_u64(n).len() >= 2 ==> enc_u64(n)[0] != '0',
        n >= 10 ==> enc_u64(n).len() >= 2,
        seq_val(enc_u64(n)) == n,
        n < 10 ==> enc_u64(n).len() == 1,
    decreases n,
{
    if n < 10 {
        let e = enc_u64(n);
        assert(e == seq![digit_char(n as int)]);
        assert(is_digit(digit_char(n as int)));
        assert(digit_val(digit_char(n as int)) == n);
        assert(e.drop_last() =~= Seq::<char>::empty());
        assert(seq_val(e.drop_last()) == 0);
        assert(e.last() == digit_char(n as int));
        assert(seq_val(e) == digit_val(digit_char(n as int)));
    } else {
        lemma_enc_u64_shape(n / 10);
        let pre = enc_u64(n / 10);
        let whole = enc_u64(n);
        assert(whole == pre + seq![digit_char((n % 10) as int)]);
        assert(whole.drop_last() =~= pre);
        assert(whole.last() == digit_char((n % 10) as int));
        assert(is_digit(digit_char((n % 10) as int)));
        assert(digit_val(digit_char((n % 10) as int)) == n % 10);
        assert(all_digits(whole)) by {
            assert(forall|k: int|
                0 <= k < pre.len() ==> whole[k] == pre[k] && is_digit(#[trigger] pre[k]));
        }
        assert(whole[0] == pre[0]);
        if pre.len() == 1 {
            assert(pre[0] == digit_char((n / 10) as int));
            assert(n / 10 >= 1);
        }
        assert(seq_val(whole) == seq_val(pre) * 10 + n % 10);
        assert(seq_val(whole) == n);
    }
}

/// A non-empty digit sequence without a leading zero is exactly the
/// decimal encoding of its value.
proof fn lemma_digits_inverse(ds: Seq<char>)
    requires
        all_digits(ds),
        ds.len() >= 1,
        ds.len() >= 2 ==> ds[0] != '0',
    ensures
        seq_val(ds) >= 0,
        enc_u64(seq_val(ds) as nat) == ds,
    decreases ds.len(),
{
    lemma_seq_val_nonneg(ds);
    if ds.len() == 1 {
        assert(is_digit(ds[0]));
        assert(ds.drop_last() =~= Seq::<char>::empty());
        assert(seq_val(ds.drop_last()) == 0);
        assert(ds.last() == ds[0]);
        assert(seq_val(ds) == digit_val(ds[0]));
        assert(digit_char(digit_val(ds[0])) == ds[0]);
        assert(enc_u64(seq_val(ds) as nat) =~= ds);
    } else {
        let dl = ds.drop_last();
        assert(all_digits(dl)) by {
            assert(forall|k: int|
                0 <= k < dl.len() ==> dl[k] == ds[k] && is_digit(#[trigger] ds[k]));
        }
        assert(dl[0] == ds[0]);
        lemma_digits_inverse(dl);
        lemma_seq_val_pos(dl);
        let v = seq_val(ds);
        let d = digit_val(ds.last());
        assert(is_digit(ds.last()));
        assert(0 <= d <= 9);
        assert(v == seq_val(dl) * 10 + d);
        assert(v >= 10);
        assert(v / 10 == seq_val(dl) && v % 10 == d) by (nonlinear_arith)
            requires
                v == seq_val(dl) * 10 + d,
                0 <= d <= 9,
                seq_val(dl) >= 0,
        ;
        assert(digit_char(digit_val(ds.last())) == ds.last());
        assert(enc_u64(v as nat) == enc_u64(seq_val(dl) as nat) + seq![digit_char(d)]);
        assert(enc_u64(v as nat) =~= ds);
    }
}

/// True exactly when the character is a decimal digit.
fn is_digit_char(c: char) -> (r: bool)
    ensures
        r == is_digit(c),
{
    let x = c as u32;
    48 <= x && x <= 57
}

/// Matches the literal text at position `i`: the position after it on
/// success, and a refusal exactly when the text is not there.
#[verifier::loop_isolation(false)]
fn expect_lit(s: &str, i: usize, lit: &str) -> (r: Option<usize>)
    ensures
        r matches Some(j) ==> (j == i + lit@.len() && j <= s@.len() && s@.subrange(
            i as int,
            j as int,
        ) == lit@),
        r is None ==> !(i + lit@.len() <= s@.len() && s@.subrange(i as int, i + lit@.len())
            == lit@),
{
    let n = s.unicode_len();
    let m = lit.unicode_len();
    if m > n || i > n - m {
        return None;
    }
    let mut k: usize = 0;
    while k < m
        invariant
            i + m <= n,
            k <= m,
            n == s@.len(),
            m == lit@.len(),
            forall|t: int| 0 <= t < k ==> s@[i + t] == lit@[t],
        decreases m - k,
    {
        if s.get_char(i + k) != lit.get_char(k) {
            proof {
                assert(s@.subrange(i as int, i + lit@.len())[k as int] == s@[i + k]);
            }
            return None;
        }
        k += 1;
    }
    proof {
        assert(s@.subrange(i as int, (i + m) as int) =~= lit@);
    }
    Some(i + m)
}

/// Parses `true` or `false`.
fn parse_bool(s: &str, i: usize) -> (r: Option<(bool, usize)>)
    ensures
        r matches Some(p) ==> (i < p.1 <= s@.len() && s@.subrange(i as int, p.1 as int)
            == enc_bool(p.0)),
        forall|b: bool, j: int|
            i <= j <= s@.len() && s@.subrange(i as int, j) == enc_bool(b) ==> (r matches Some(p)
                && p.0 == b && p.1 == j),
{
    proof {
        reveal_strlit("true");
        reveal_strlit("false");
    }
    match expect_lit(s, i, "true") {
        Some(j) => {
            proof {
                assert forall|b: bool, j2: int|
                    i <= j2 <= s@.len() && s@.subrange(i as int, j2) == enc_bool(b) implies (b
                    && j2 == j) by {
                    reveal_strlit("true");
                    reveal_strlit("false");
                    assert(("true"@).len() == 4 && ("true"@)[0] == 't');
                    assert(("false"@).len() == 5 && ("false"@)[0] == 'f');
                    if !b {
                        assert(s@.subrange(i as int, j2).len() == j2 - i);
                        assert(j2 == i + 5);
                        assert(s@.subrange(i as int, j2)[0] == s@[i as int]);
                        assert(s@[i as int] == 'f');
                        assert(s@.subrange(i as int, j as int)[0] == s@[i as int]);
                        assert(s@[i as int] == 't');
                        assert(false);
                    }
                }
            }
            Some((true, j))
        },
        None => match expect_lit(s, i, "false") {
            Some(j) => {
                proof {
                    assert forall|b: bool, j2: int|
                        i <= j2 <= s@.len() && s@.subrange(i as int, j2) == enc_bool(b) implies (
                    !b && j2 == j) by {
                        reveal_strlit("true");
                        reveal_strlit("false");
                        assert(("true"@).len() == 4 && ("true"@)[0] == 't');
                        assert(("false"@).len() == 5 && ("false"@)[0] == 'f');
                        if b {
                            assert(s@.subrange(i as int, j2).len() == j2 - i);
                            assert(j2 == i + 4);
                            assert(s@.subrange(i as int, j2)[0] == s@[i as int]);
                            assert(s@[i as int] == 't');
                            assert(s@.subrange(i as int, j as int)[0] == s@[i as int]);
                            assert(s@[i as int] == 'f');
                            assert(false);
                        }
                    }
                }
                Some((false, j))
            },
            None => {
                proof {
                    assert forall|b: bool, j2: int|
                        !(i <= j2 <= s@.len() && s@.subrange(i as int, j2) == enc_bool(b)) by {
                        reveal_strlit("true");
                        reveal_strlit("false");
                        assert(("true"@).len() == 4);
                        assert(("false"@).len() == 5);
                        if i <= j2 <= s@.len() && s@.subrange(i as int, j2) == enc_bool(b) {
                            if b {
                                assert(j2 == i + 4);
                            } else {
                                assert(j2 == i + 5);
                            }
                            assert(false);
                        }
                    }
                }
                None
            },
        },
    }
}

/// Parses an unsigned decimal number: the longest digit run, refused on a
/// leading zero (after the first digit) or a value past the type's range.
#[verifier::loop_isolation(false)]
fn parse_u64(s: &str, i: usize) -> (r: Option<(u64, usize)>)
    ensures
        r matches Some(p) ==> (i < p.1 <= s@.len() && s@.subrange(i as int, p.1 as int) == enc_u64(
            p.0 as nat,
        )),
        forall|v: u64, j: int|
            i <= j <= s@.len() && s@.subrange(i as int, j) == enc_u64(v as nat) && (j == s@.len()
                || !is_digit(s@[j])) ==> (r matches Some(p) && p.0 == v && p.1 == j),
{
    let n = s.unicode_len();
    if i >= n {
        proof {
            assert forall|v: u64, j: int|
                i <= j <= s@.len() && s@.subrange(i as int, j) == enc_u64(v as nat) && (j
                    == s@.len() || !is_digit(s@[j])) implies false by {
                lemma_enc_u64_shape(v as nat);
            }
        }
        return None;
    }
    let c0 = s.get_char(i);
    if !is_digit_char(c0) {
        proof {
            assert forall|v: u64, j: int|
                i <= j <= s@.len() && s@.subrange(i as int, j) == enc_u64(v as nat) && (j
                    == s@.len() || !is_digit(s@[j])) implies false by {
                lemma_enc_u64_shape(v as nat);
                assert(s@.subrange(i as int, j)[0] == s@[i as int]);
            }
        }
        return None;
    }
    if c0 == '0' {
        proof {
            assert(s@.subrange(i as int, i as int + 1) =~= seq!['0']);
            assert(enc_u64(0nat) == seq![digit_char(0)]);
            assert forall|v: u64, j: int|
                i <= j <= s@.len() && s@.subrange(i as int, j) == enc_u64(v as nat) && (j
                    == s@.len() || !is_digit(s@[j])) implies (v == 0 && j == i + 1) by {
                lemma_enc_u64_shape(v as nat);
                assert(s@.subrange(i as int, j)[0] == s@[i as int]);
                if enc_u64(v as nat).len() >= 2 {
                    assert(enc_u64(v as nat)[0] != '0');
                    assert(false);
                }
                assert(j == i + 1);
                assert(enc_u64(v as nat)[0] == '0');
                assert(digit_char(v as int) == '0');
                if v != 0 {
                    assert(false);
                }
            }
        }
        return Some((0u64, i + 1));
    }
    let mut acc: u64 = (c0 as u32 - 48) as u64;
    let mut p: usize = i + 1;
    proof {
        let one = s@.subrange(i as int, i as int + 1);
        assert(one =~= seq![s@[i as int]]);
        assert(one.drop_last() =~= Seq::<char>::empty());
        assert(seq_val(one.drop_last()) == 0);
        assert(one.last() == s@[i as int]);
        assert(seq_val(one) == digit_val(s@[i as int]));
        assert(acc as int == seq_val(s@.subrange(i as int, p as int)));
    }
    let mut more: bool = p < n && is_digit_char(s.get_char(p));
    while more
        invariant
            n == s@.len(),
            i < p <= n,
            s@[i as int] != '0',
            is_digit(s@[i as int]),
            all_digits(s@.subrange(i as int, p as int)),
            acc as int == seq_val(s@.subrange(i as int, p as int)),
            more == (p < n && is_digit(s@[p as int])),
        decreases n - p,
    {
        let c = s.get_char(p);
        let d: u64 = (c as u32 - 48) as u64;
        let ghost pre = s@.subrange(i as int, p as int);
        let ghost ext = s@.subrange(i as int, p as int + 1);
        proof {
            assert(ext.drop_last() =~= pre);
            assert(ext.last() == s@[p as int]);
            assert(seq_val(ext) == acc as int * 10 + d);
            assert(all_digits(ext)) by {
                assert(forall|k: int|
                    0 <= k < pre.len() ==> ext[k] == pre[k] && is_digit(#[trigger] pre[k]));
            }
        }
        let acc10 = match acc.checked_mul(10) {
            Some(x) => x,
            None => {
                proof {
                    overflow_contradiction(s, i, p, acc as int * 10 + d as int);
                }
                return None;
            },
        };
        let newacc = match acc10.checked_add(d) {
            Some(x) => x,
            None => {
                proof {
                    overflow_contradiction(s, i, p, acc as int * 10 + d as int);
                }
                return None;
            },
        };
        acc = newacc;
        p = p + 1;
        more = p < n && is_digit_char(s.get_char(p));
    }
    proof {
        let ds = s@.subrange(i as int, p as int);
        assert(ds[0] == s@[i as int]);
        lemma_digits_inverse(ds);
        assert forall|v: u64, j: int|
            i <= j <= s@.len() && s@.subrange(i as int, j) == enc_u64(v as nat) && (j == s@.len()
                || !is_digit(s@[j])) implies (acc == v && p == j) by {
            lemma_enc_u64_shape(v as nat);
            if p < j {
                assert(s@.subrange(i as int, j)[p - i] == s@[p as int]);
                assert(is_digit(s@[p as int]));
                assert(false);
            }
            if j < p {
                assert(ds[j - i] == s@[j as int]);
                assert(is_digit(s@[j as int]));
                assert(j < n);
                assert(false);
            }
            assert(enc_u64(acc as nat) == enc_u64(v as nat));
            assert(seq_val(enc_u64(acc as nat)) == seq_val(enc_u64(v as nat)));
            lemma_enc_u64_shape(acc as nat);
        }
    }
    Some((acc, p))
}

/// Inside a decimal encoding the running value never leaves the type's
/// range, so an overflow refutes the claim that one is being read.
proof fn overflow_contradiction(s: &str, i: usize, p: usize, extval: int)
    requires
        i < p < s@.len(),
        is_digit(s@[p as int]),
        all_digits(s@.subrange(i as int, p as int)),
        s@[i as int] != '0',
        is_digit(s@[i as int]),
        extval == seq_val(s@.subrange(i as int, p as int + 1)),
        extval > u64::MAX,
    ensures
        forall|v: u64, j: int|
            !(i <= j <= s@.len() && s@.subrange(i as int, j) == enc_u64(v as nat) && (j == s@.len()
                || !is_digit(s@[j]))),
{
    assert forall|v: u64, j: int|
        !(i <= j <= s@.len() && s@.subrange(i as int, j) == enc_u64(v as nat) && (j == s@.len()
            || !is_digit(s@[j]))) by {
        if i <= j <= s@.len() && s@.subrange(i as int, j) == enc_u64(v as nat) && (j == s@.len()
            || !is_digit(s@[j])) {
            lemma_enc_u64_shape(v as nat);
            let enc = s@.subrange(i as int, j);
            if j <= p {
                assert(s@.subrange(i as int, p as int)[j - i] == s@[j as int]) by {
                    assert(j - i < p - i);
                }
                assert(is_digit(s@[j as int]));
                assert(j < s@.len());
                assert(false);
            }
            assert(p + 1 <= j);
            assert(s@.subrange(i as int, p as int + 1) =~= enc.take(p + 1 - i));
            lemma_seq_val_prefix_le(enc, p + 1 - i);
            assert(seq_val(enc) == v as int);
            assert(extval <= v as int);
            assert(false);
        }
    }
}

/// Parses a signed decimal number.
fn parse_i64(s: &str, i: usize) -> (r: Option<(i64, usize)>)
    ensures
        r matches Some(p) ==> (i < p.1 <= s@.len() && s@.subrange(i as int, p.1 as int) == enc_i64(
            p.0 as int,
        )),
        forall|v: i64, j: int|
            i <= j <= s@.len() && s@.subrange(i as int, j) == enc_i64(v as int) && (j == s@.len()
                || !is_digit(s@[j])) ==> (r matches Some(p) && p.0 == v && p.1 == j),
{
    let n = s.unicode_len();
    if i >= n {
        proof {
            assert forall|v: i64, j: int|
                i <= j <= s@.len() && s@.subrange(i as int, j) == enc_i64(v as int) && (j
                    == s@.len() || !is_digit(s@[j])) implies false by {
                lemma_enc_i64_nonempty(v as int);
            }
        }
        return None;
    }
    if s.get_char(i) == '-' {
        match parse_u64(s, i + 1) {
            Some((mag, j)) => {
                if mag == 0 {
                    proof {
                        i64_neg_contradiction(s, i, i as int + 1, Some((0u64, j as int)));
                    }
                    return None;
                }
                if mag > 9223372036854775808u64 {
                    proof {
                        i64_neg_contradiction(s, i, i as int + 1, Some((mag, j as int)));
                    }
                    return None;
                }
                let v: i64 = if mag == 9223372036854775808u64 {
                    i64::MIN
                } else {
                    -(mag as i64)
                };
                proof {
                    assert(s@.subrange(i as int, j as int) =~= seq!['-'] + s@.subrange(
                        i as int + 1,
                        j as int,
                    ));
                    lemma_i64_neg_complete(s, i, i as int + 1, mag, j as int, v);
                }
                Some((v, j))
            },
            None => {
                proof {
                    i64_neg_contradiction(s, i, i as int + 1, None);
                }
                None
            },
        }
    } else {
        match parse_u64(s, i) {
            Some((mag, j)) => {
                if mag > 9223372036854775807u64 {
                    proof {
                        i64_pos_contradiction(s, i, Some((mag, j as int)));
                    }
                    return None;
                }
                proof {
                    i64_pos_complete(s, i, mag, j as int);
                }
                Some((mag as i64, j))
            },
            None => {
                proof {
                    i64_pos_contradiction(s, i, None);
                }
                None
            },
        }
    }
}

/// The signed encoding is never empty and never starts with a character
/// that is neither a minus sign nor a digit.
proof fn lemma_enc_i64_nonempty(v: int)
    ensures
        enc_i64(v).len() >= 1,
        v >= 0 ==> enc_i64(v) == enc_u64(v as nat),
        v < 0 ==> enc_i64(v)[0] == '-' && enc_i64(v).drop_first() == enc_u64((-v) as nat),
{
    if v < 0 {
        lemma_enc_u64_shape((-v) as nat);
        assert(enc_i64(v).drop_first() =~= enc_u64((-v) as nat));
    } else {
        lemma_enc_u64_shape(v as nat);
    }
}

/// In the branch that saw a minus sign, a refused or out-of-range
/// magnitude contradicts the presence of any signed encoding. The premise
/// is the magnitude parser's outcome: either its completeness clause with
/// a reported value outside the signed range, or its refusal.
proof fn i64_neg_contradiction(s: &str, i: usize, start: int, sub: Option<(u64, int)>)
    requires
        i < s@.len(),
        s@[i as int] == '-',
        start == i + 1,
        sub matches Some(p) ==> ((p.0 == 0 || p.0 > 9223372036854775808u64) && (forall|
            m: u64,
            j: int,
        |
            #![trigger s@.subrange(start, j), enc_u64(m as nat)]
            start <= j <= s@.len() && s@.subrange(start, j) == enc_u64(m as nat) && (j == s@.len()
                || !is_digit(s@[j])) ==> (m == p.0 && j == p.1))),
        sub is None ==> (forall|m: u64, j: int|
            #![trigger s@.subrange(start, j), enc_u64(m as nat)]
            !(start <= j <= s@.len() && s@.subrange(start, j) == enc_u64(m as nat) && (j
                == s@.len() || !is_digit(s@[j])))),
    ensures
        forall|v: i64, j: int|
            !(i <= j <= s@.len() && s@.subrange(i as int, j) == enc_i64(v as int) && (j == s@.len()
                || !is_digit(s@[j]))),
{
    assert forall|v: i64, j: int|
        !(i <= j <= s@.len() && s@.subrange(i as int, j) == enc_i64(v as int) && (j == s@.len()
            || !is_digit(s@[j]))) by {
        if i <= j <= s@.len() && s@.subrange(i as int, j) == enc_i64(v as int) && (j == s@.len()
            || !is_digit(s@[j])) {
            lemma_enc_i64_nonempty(v as int);
            let enc = s@.subrange(i as int, j);
            assert(enc[0] == s@[i as int]);
            if v as int >= 0 {
                lemma_enc_u64_shape(v as nat);
                assert(is_digit(enc[0]));
                assert(false);
            }
            let mag = (-(v as int)) as nat;
            assert(s@.subrange(start, j) =~= enc.drop_first());
            assert(s@.subrange(start, j) == enc_u64(mag));
            assert(1 <= mag <= 9223372036854775808);
            let m64: u64 = mag as u64;
            assert(m64 as nat == mag);
            assert(s@.subrange(start, j) == enc_u64(m64 as nat));
            assert(start <= j <= s@.len() && s@.subrange(start, j) == enc_u64(m64 as nat) && (j
                == s@.len() || !is_digit(s@[j])));
            match sub {
                Some(p) => {
                    assert(m64 == p.0 && j == p.1);
                    assert(false);
                },
                None => {
                    assert(false);
                },
            }
        }
    }
}

/// In the branch that saw a minus sign, an in-range magnitude yields the
/// completeness of the signed parse. The premise is the magnitude
/// parser's soundness and completeness at the position after the sign.
proof fn lemma_i64_neg_complete(s: &str, i: usize, start: int, mag: u64, j: int, v: i64)
    requires
        i < s@.len(),
        s@[i as int] == '-',
        start == i + 1,
        start < j <= s@.len(),
        s@.subrange(start, j) == enc_u64(mag as nat),
        1 <= mag <= 9223372036854775808u64,
        v as int == -(mag as int),
        forall|m: u64, j2: int|
            #![trigger s@.subrange(start, j2), enc_u64(m as nat)]
            start <= j2 <= s@.len() && s@.subrange(start, j2) == enc_u64(m as nat) && (j2
                == s@.len() || !is_digit(s@[j2])) ==> (m == mag && j2 == j),
    ensures
        s@.subrange(i as int, j) == enc_i64(v as int),
        forall|v2: i64, j2: int|
            i <= j2 <= s@.len() && s@.subrange(i as int, j2) == enc_i64(v2 as int) && (j2
                == s@.len() || !is_digit(s@[j2])) ==> (v2 == v && j2 == j),
{
    assert(s@.subrange(i as int, j) =~= seq!['-'] + s@.subrange(start, j));
    assert(enc_i64(v as int) == seq!['-'] + enc_u64(mag as nat));
    assert forall|v2: i64, j2: int|
        i <= j2 <= s@.len() && s@.subrange(i as int, j2) == enc_i64(v2 as int) && (j2 == s@.len()
            || !is_digit(s@[j2])) implies (v2 == v && j2 == j) by {
        lemma_enc_i64_nonempty(v2 as int);
        let enc2 = s@.subrange(i as int, j2);
        assert(enc2[0] == s@[i as int]);
        if v2 as int >= 0 {
            lemma_enc_u64_shape(v2 as nat);
            assert(is_digit(enc2[0]));
            assert(false);
        }
        let mag2 = (-(v2 as int)) as nat;
        assert(s@.subrange(start, j2) =~= enc2.drop_first());
        assert(s@.subrange(start, j2) == enc_u64(mag2));
        assert(1 <= mag2 <= 9223372036854775808);
        let m64: u64 = mag2 as u64;
        assert(m64 as nat == mag2);
        assert(s@.subrange(start, j2) == enc_u64(m64 as nat));
        assert(start <= j2 <= s@.len() && s@.subrange(start, j2) == enc_u64(m64 as nat) && (j2
            == s@.len() || !is_digit(s@[j2])));
        assert(m64 == mag && j2 == j);
    }
}

/// In the branch without a minus sign, a refused or out-of-range magnitude
/// contradicts the presence of any signed encoding.
proof fn i64_pos_contradiction(s: &str, i: usize, sub: Option<(u64, int)>)
    requires
        i < s@.len(),
        s@[i as int] != '-',
        sub matches Some(p) ==> (p.0 > 9223372036854775807u64 && (forall|m: u64, j: int|
            i <= j <= s@.len() && s@.subrange(i as int, j) == enc_u64(m as nat) && (j == s@.len()
                || !is_digit(s@[j])) ==> (m == p.0 && j == p.1))),
        sub is None ==> (forall|m: u64, j: int|
            !(i <= j <= s@.len() && s@.subrange(i as int, j) == enc_u64(m as nat) && (j == s@.len()
                || !is_digit(s@[j])))),
    ensures
        forall|v: i64, j: int|
            !(i <= j <= s@.len() && s@.subrange(i as int, j) == enc_i64(v as int) && (j == s@.len()
                || !is_digit(s@[j]))),
{
    assert forall|v: i64, j: int|
        !(i <= j <= s@.len() && s@.subrange(i as int, j) == enc_i64(v as int) && (j == s@.len()
            || !is_digit(s@[j]))) by {
        if i <= j <= s@.len() && s@.subrange(i as int, j) == enc_i64(v as int) && (j == s@.len()
            || !is_digit(s@[j])) {
            lemma_enc_i64_nonempty(v as int);
            let enc = s@.subrange(i as int, j);
            assert(enc[0] == s@[i as int]);
            if (v as int) < 0 {
                assert(false);
            }
            assert(s@.subrange(i as int, j) == enc_u64(v as nat));
            let m64: u64 = v as u64;
            assert(m64 as nat == v as nat);
            assert(s@.subrange(i as int, j) == enc_u64(m64 as nat));
            assert(i <= j <= s@.len() && s@.subrange(i as int, j) == enc_u64(m64 as nat) && (j
                == s@.len() || !is_digit(s@[j])));
            match sub {
                Some(p) => {
                    assert(m64 == p.0 && j == p.1);
                    assert(false);
                },
                None => {
                    assert(false);
                },
            }
        }
    }
}

/// In the branch without a minus sign, an in-range magnitude yields the
/// completeness of the signed parse.
proof fn i64_pos_complete(s: &str, i: usize, mag: u64, j: int)
    requires
        i < s@.len(),
        s@[i as int] != '-',
        i < j <= s@.len(),
        s@.subrange(i as int, j) == enc_u64(mag as nat),
        mag <= 9223372036854775807u64,
        forall|m: u64, j2: int|
            i <= j2 <= s@.len() && s@.subrange(i as int, j2) == enc_u64(m as nat) && (j2
                == s@.len() || !is_digit(s@[j2])) ==> (m == mag && j2 == j),
    ensures
        s@.subrange(i as int, j) == enc_i64(mag as int),
        forall|v2: i64, j2: int|
            i <= j2 <= s@.len() && s@.subrange(i as int, j2) == enc_i64(v2 as int) && (j2
                == s@.len() || !is_digit(s@[j2])) ==> (v2 == mag as i64 && j2 == j),
{
    assert forall|v2: i64, j2: int|
        i <= j2 <= s@.len() && s@.subrange(i as int, j2) == enc_i64(v2 as int) && (j2 == s@.len()
            || !is_digit(s@[j2])) implies (v2 == mag as i64 && j2 == j) by {
        lemma_enc_i64_nonempty(v2 as int);
        let enc2 = s@.subrange(i as int, j2);
        assert(enc2[0] == s@[i as int]);
        if (v2 as int) < 0 {
            assert(false);
        }
        assert(s@.subrange(i as int, j2) == enc_u64(v2 as nat));
        let m64: u64 = v2 as u64;
        assert(m64 as nat == v2 as nat);
        assert(s@.subrange(i as int, j2) == enc_u64(m64 as nat));
        assert(i <= j2 <= s@.len() && s@.subrange(i as int, j2) == enc_u64(m64 as nat) && (j2
            == s@.len() || !is_digit(s@[j2])));
        assert(m64 == mag && j2 == j);
    }
}

/// The comma-prefixed entry list distributes over concatenation.
proof fn lemma_flags_tail_concat(a: Seq<(String, bool)>, b: Seq<(String, bool)>)
    ensures
        flags_tail(a + b) == flags_tail(a) + flags_tail(b),
    decreases a.len(),
{
    if a.len() == 0 {
        assert(a + b =~= b);
        assert(flags_tail(a) == Seq::<char>::empty());
        assert(flags_tail(a) + flags_tail(b) =~= flags_tail(b));
    } else {
        assert((a + b)[0] == a[0]);
        assert((a + b).drop_first() =~= a.drop_first() + b);
        lemma_flags_tail_concat(a.drop_first(), b);
        assert(flags_tail(a + b) =~= flags_tail(a) + flags_tail(b));
    }
}

/// The body of a non-trivial prefix, followed by the tail of the rest, is
/// the whole body.
proof fn lemma_flags_body_split(es: Seq<(String, bool)>, k: int)
    requires
        1 <= k <= es.len(),
    ensures
        flags_body(es) == flags_body(es.take(k)) + flags_tail(es.skip(k)),
{
    assert(es.len() >= 1);
    assert(es.take(k)[0] == es[0]);
    assert(es.take(k).drop_first() =~= es.drop_first().take(k - 1));
    assert(es.drop_first().take(k - 1) + es.skip(k) =~= es.drop_first());
    lemma_flags_tail_concat(es.drop_first().take(k - 1), es.skip(k));
    assert(flags_tail(es.drop_first()) == flags_tail(es.drop_first().take(k - 1)) + flags_tail(
        es.skip(k),
    ));
    assert(flags_body(es) =~= flags_body(es.take(k)) + flags_tail(es.skip(k)));
}

/// The anatomy of the flags object inside a larger text: the braces, the
/// alignment of the body, and the tokens at the parser's cursor before
/// entry `k`.
proof fn flags_cursor_facts(sv: Seq<char>, i: int, j: int, es: Seq<(String, bool)>, k: int)
    requires
        0 <= i,
        i <= j <= sv.len(),
        sv.subrange(i, j) == enc_flags(es),
        0 <= k <= es.len(),
    ensures
        j == i + 2 + flags_body(es).len(),
        sv[i] == '{',
        sv[j - 1] == '}',
        forall|m: int| 0 <= m < flags_body(es).len() ==> sv[i + 1 + m] == flags_body(es)[m],
        k >= 1 ==> flags_body(es) == flags_body(es.take(k)) + flags_tail(es.skip(k)),
        k >= 1 && k < es.len() ==> flags_tail(es.skip(k)) == seq![','] + enc_flag_entry(es[k])
            + flags_tail(es.skip(k + 1)),
        k == 0 && k < es.len() ==> flags_body(es) == enc_flag_entry(es[0]) + flags_tail(
            es.skip(1),
        ),
{
    let enc = sv.subrange(i, j);
    assert(enc.len() == 2 + flags_body(es).len());
    assert(enc[0] == sv[i]);
    assert(enc[0] == '{');
    assert(enc[enc.len() - 1] == sv[j - 1]);
    assert(enc[enc.len() - 1] == '}');
    assert forall|m: int| 0 <= m < flags_body(es).len() implies sv[i + 1 + m] == flags_body(es)[m]
        by {
        assert(enc[1 + m] == sv[i + 1 + m]);
        assert(enc[1 + m] == flags_body(es)[m]);
    }
    if k >= 1 {
        lemma_flags_body_split(es, k);
        if k < es.len() {
            let rest = es.skip(k);
            assert(rest[0] == es[k]);
            assert(rest.drop_first() =~= es.skip(k + 1));
        }
    } else {
        if k < es.len() {
            assert(es.skip(1) =~= es.drop_first());
        }
    }
}

/// Parses the flags object.
#[verifier::rlimit(100)]
fn parse_flags(s: &str, i: usize) -> (r: Option<(Vec<(String, bool)>, usize)>)
    ensures
        r matches Some(p) ==> (i < p.1 <= s@.len() && s@.subrange(i as int, p.1 as int)
            == enc_flags(p.0@)),
        forall|es: Seq<(String, bool)>, j: int|
            #![trigger s@.subrange(i as int, j), enc_flags(es)]
            i <= j <= s@.len() && s@.subrange(i as int, j) == enc_flags(es) ==> (r matches Some(p)
                && p.1 == j && p.0@.len() == es.len() && (forall|m: int|
                0 <= m < es.len() ==> (#[trigger] p.0@[m]).0@ == es[m].0@ && p.0@[m].1
                    == es[m].1)),
{
    let n = s.unicode_len();
    if i >= n {
        proof {
            assert forall|es: Seq<(String, bool)>, j: int|
                i <= j <= s@.len() && s@.subrange(i as int, j) == enc_flags(es) implies false by {
                flags_cursor_facts(s@, i as int, j, es, 0);
            }
        }
        return None;
    }
    if s.get_char(i) != '{' {
        proof {
            assert forall|es: Seq<(String, bool)>, j: int|
                i <= j <= s@.len() && s@.subrange(i as int, j) == enc_flags(es) implies false by {
                flags_cursor_facts(s@, i as int, j, es, 0);
            }
        }
        return None;
    }
    let mut p: usize = i + 1;
    if p >= n {
        proof {
            assert forall|es: Seq<(String, bool)>, j: int|
                i <= j <= s@.len() && s@.subrange(i as int, j) == enc_flags(es) implies false by {
                flags_cursor_facts(s@, i as int, j, es, 0);
            }
        }
        return None;
    }
    let mut v: Vec<(String, bool)> = Vec::new();
    if s.get_char(p) == '}' {
        proof {
            assert forall|es: Seq<(String, bool)>, j: int|
                i <= j <= s@.len() && s@.subrange(i as int, j) == enc_flags(es) implies (es.len()
                == 0 && j == p + 1) by {
                flags_cursor_facts(s@, i as int, j, es, 0);
                if es.len() > 0 {
                    assert(flags_body(es) == enc_flag_entry(es[0]) + flags_tail(es.skip(1)));
                    assert(flags_body(es)[0] == enc_flag_entry(es[0])[0]);
                    assert(enc_flag_entry(es[0])[0] == '"');
                    assert(s@[i as int + 1] == '"');
                    assert(false);
                }
            }
            assert(flags_body(v@) == Seq::<char>::empty());
            assert(s@.subrange(i as int, p as int + 1) =~= enc_flags(v@));
        }
        return Some((v, p + 1));
    }
    proof {
        assert forall|es: Seq<(String, bool)>, j: int|
            i <= j <= n && s@.subrange(i as int, j) == enc_flags(es) implies (v@.len() < es.len()
            && p == i + 1 + flags_body(es.take(v@.len() as int)).len() + (if v@.len() > 0 {
            1int
        } else {
            0int
        })) by {
            flags_cursor_facts(s@, i as int, j, es, 0);
            if es.len() == 0 {
                assert(flags_body(es).len() == 0);
                assert(j == i + 2);
                assert(s@[i as int + 1] == '}');
                assert(false);
            }
            assert(flags_body(es.take(0)).len() == 0);
        }
    }
    loop
        invariant
            n == s@.len(),
            i + 1 <= p <= n,
            s@[i as int] == '{',
            s@.subrange(i as int + 1, p as int) == flags_body(v@) + (if v@.len() > 0 {
                seq![',']
            } else {
                Seq::<char>::empty()
            }),
            forall|es: Seq<(String, bool)>, j: int|
                #![trigger s@.subrange(i as int, j), enc_flags(es)]
                i <= j <= n && s@.subrange(i as int, j) == enc_flags(es) ==> (v@.len() < es.len()
                    && (forall|m: int|
                    0 <= m < v@.len() ==> (#[trigger] v@[m]).0@ == es[m].0@ && v@[m].1
                        == es[m].1) && p == i + 1 + flags_body(es.take(v@.len() as int)).len() + (
                if v@.len() > 0 {
                    1int
                } else {
                    0int
                })),
        decreases n - p,
    {
        let ghost k = v@.len() as int;
        let ghost p0 = p as int;
        let (key, q1) = match parse_string(s, p) {
            Some(kq) => kq,
            None => {
                proof {
                    assert forall|es: Seq<(String, bool)>, j: int|
                        i <= j <= s@.len() && s@.subrange(i as int, j) == enc_flags(
                            es,
                        ) implies false by {
                        flags_cursor_facts(s@, i as int, j, es, k);
                        flags_entry_window(s@, i as int, j, es, k, p0);
                    }
                }
                return None;
            },
        };
        proof {
            assert forall|es: Seq<(String, bool)>, j: int|
                i <= j <= n && s@.subrange(i as int, j) == enc_flags(es) implies (key@
                == es[k].0@ && q1 == p0 + enc_string(es[k].0@).len()) by {
                flags_cursor_facts(s@, i as int, j, es, k);
                flags_entry_window(s@, i as int, j, es, k, p0);
            }
        }
        if q1 >= n {
            proof {
                assert forall|es: Seq<(String, bool)>, j: int|
                    i <= j <= s@.len() && s@.subrange(i as int, j) == enc_flags(
                        es,
                    ) implies false by {
                    flags_cursor_facts(s@, i as int, j, es, k);
                    flags_entry_window(s@, i as int, j, es, k, p0);
                }
            }
            return None;
        }
        if s.get_char(q1) != ':' {
            proof {
                assert forall|es: Seq<(String, bool)>, j: int|
                    i <= j <= s@.len() && s@.subrange(i as int, j) == enc_flags(
                        es,
                    ) implies false by {
                    flags_cursor_facts(s@, i as int, j, es, k);
                    flags_entry_window(s@, i as int, j, es, k, p0);
                }
            }
            return None;
        }
        let q2 = q1 + 1;
        let (val, q3) = match parse_bool(s, q2) {
            Some(vq) => vq,
            None => {
                proof {
                    assert forall|es: Seq<(String, bool)>, j: int|
                        i <= j <= s@.len() && s@.subrange(i as int, j) == enc_flags(
                            es,
                        ) implies false by {
                        flags_cursor_facts(s@, i as int, j, es, k);
                        flags_entry_window(s@, i as int, j, es, k, p0);
                    }
                }
                return None;
            },
        };
        proof {
            assert forall|es: Seq<(String, bool)>, j: int|
                i <= j <= n && s@.subrange(i as int, j) == enc_flags(es) implies (val == es[k].1
                && q3 == p0 + enc_flag_entry(es[k]).len()) by {
                flags_cursor_facts(s@, i as int, j, es, k);
                flags_entry_window(s@, i as int, j, es, k, p0);
            }
        }
        let ghost vprev = v@;
        v.push((key, val));
        proof {
            assert(s@.subrange(p0, q3 as int) =~= enc_string(key@) + seq![':'] + enc_bool(val));
            assert(enc_flag_entry(v@[k as int]) == enc_string(key@) + seq![':'] + enc_bool(val));
            lemma_flags_body_push(vprev, (v@[k as int].0, v@[k as int].1));
            assert(vprev.push(v@[k as int]) =~= v@);
            assert((v@[k as int].0, v@[k as int].1) == v@[k as int]);
            assert(s@.subrange(i as int + 1, q3 as int) =~= flags_body(v@));
        }
        p = q3;
        if p >= n {
            proof {
                assert forall|es: Seq<(String, bool)>, j: int|
                    i <= j <= s@.len() && s@.subrange(i as int, j) == enc_flags(
                        es,
                    ) implies false by {
                    flags_cursor_facts(s@, i as int, j, es, k);
                    flags_entry_window(s@, i as int, j, es, k, p0);
                    assert(p0 + enc_flag_entry(es[k]).len() <= j - 1);
                }
            }
            return None;
        }
        let c = s.get_char(p);
        if c == '}' {
            proof {
                assert forall|es: Seq<(String, bool)>, j: int|
                    i <= j <= s@.len() && s@.subrange(i as int, j) == enc_flags(es) implies (
                v@.len() == es.len() && j == p + 1 && (forall|m: int|
                    0 <= m < es.len() ==> (#[trigger] v@[m]).0@ == es[m].0@ && v@[m].1
                        == es[m].1)) by {
                    flags_cursor_facts(s@, i as int, j, es, k);
                    flags_entry_window(s@, i as int, j, es, k, p0);
                    if k + 1 < es.len() {
                        assert(s@[p as int] == ',');
                        assert(false);
                    }
                    assert(v@.len() == es.len());
                    assert(j == p + 1);
                }
                assert(s@.subrange(i as int, p as int + 1) =~= enc_flags(v@));
            }
            return Some((v, p + 1));
        }
        if c != ',' {
            proof {
                assert forall|es: Seq<(String, bool)>, j: int|
                    i <= j <= s@.len() && s@.subrange(i as int, j) == enc_flags(
                        es,
                    ) implies false by {
                    flags_cursor_facts(s@, i as int, j, es, k);
                    flags_entry_window(s@, i as int, j, es, k, p0);
                    if k + 1 < es.len() {
                        assert(s@[p as int] == ',');
                    } else {
                        assert(p == j - 1);
                        assert(s@[j - 1] == '}');
                    }
                    assert(false);
                }
            }
            return None;
        }
        p = p + 1;
        proof {
            assert(s@.subrange(i as int + 1, p as int) =~= flags_body(v@) + seq![',']);
            assert forall|es: Seq<(String, bool)>, j: int|
                i <= j <= n && s@.subrange(i as int, j) == enc_flags(es) implies (v@.len()
                < es.len() && (forall|m: int|
                0 <= m < v@.len() ==> (#[trigger] v@[m]).0@ == es[m].0@ && v@[m].1 == es[m].1) && p
                == i + 1 + flags_body(es.take(v@.len() as int)).len() + 1) by {
                flags_cursor_facts(s@, i as int, j, es, k);
                flags_entry_window(s@, i as int, j, es, k, p0);
                if k + 1 == es.len() {
                    assert(p - 1 == j - 1);
                    assert(s@[j - 1] == '}');
                    assert(false);
                }
            }
        }
    }
}

/// The tokens of entry `k` of the flags object, as they stand in the text
/// when the parser's cursor is at the entry's first character.
proof fn flags_entry_window(
    sv: Seq<char>,
    i: int,
    j: int,
    es: Seq<(String, bool)>,
    k: int,
    p: int,
)
    requires
        0 <= i,
        i <= j <= sv.len(),
        sv.subrange(i, j) == enc_flags(es),
        0 <= k < es.len(),
        p == i + 1 + flags_body(es.take(k)).len() + (if k > 0 {
            1int
        } else {
            0int
        }),
    ensures
        ({
            let sl = enc_string(es[k].0@).len() as int;
            let bl = enc_bool(es[k].1).len() as int;
            &&& p + sl + 1 + bl <= j - 1
            &&& sv.subrange(p, p + sl) == enc_string(es[k].0@)
            &&& sv[p + sl] == ':'
            &&& sv.subrange(p + sl + 1, p + sl + 1 + bl) == enc_bool(es[k].1)
            &&& (k + 1 == es.len() ==> p + sl + 1 + bl == j - 1)
            &&& (k + 1 < es.len() ==> sv[p + sl + 1 + bl] == ',')
            &&& flags_body(es.take(k + 1)).len() + i + 1 == p + sl + 1 + bl
        }),
{
    flags_cursor_facts(sv, i, j, es, k);
    let sl = enc_string(es[k].0@).len() as int;
    let bl = enc_bool(es[k].1).len() as int;
    let entry = enc_flag_entry(es[k]);
    assert(entry.len() == sl + 1 + bl);
    let off = p - (i + 1);
    // the body from `off` onward starts with this entry
    if k == 0 {
        assert(flags_body(es) == entry + flags_tail(es.skip(1)));
        assert(off == 0);
        assert forall|m: int| 0 <= m < entry.len() implies flags_body(es)[off + m] == entry[m] by {
        }
        assert(flags_body(es).len() == entry.len() + flags_tail(es.skip(1)).len());
        if k + 1 < es.len() {
            assert(es.skip(1).len() > 0);
            assert(flags_tail(es.skip(1)) == seq![','] + enc_flag_entry(es.skip(1)[0])
                + flags_tail(es.skip(1).drop_first()));
            assert(flags_body(es)[off + entry.len()] == flags_tail(es.skip(1))[0]);
        } else {
            assert(es.skip(1).len() == 0);
            assert(flags_tail(es.skip(1)).len() == 0);
        }
    } else {
        assert(flags_body(es) == flags_body(es.take(k)) + flags_tail(es.skip(k)));
        assert(flags_tail(es.skip(k)) == seq![','] + entry + flags_tail(es.skip(k + 1)));
        assert(off == flags_body(es.take(k)).len() + 1);
        assert forall|m: int| 0 <= m < entry.len() implies flags_body(es)[off + m] == entry[m] by {
            assert(flags_body(es)[off + m] == flags_tail(es.skip(k))[1 + m]);
        }
        assert(flags_body(es).len() == flags_body(es.take(k)).len() + 1 + entry.len()
            + flags_tail(es.skip(k + 1)).len());
        if k + 1 < es.len() {
            assert(es.skip(k + 1).len() > 0);
            assert(flags_tail(es.skip(k + 1)) == seq![','] + enc_flag_entry(es.skip(k + 1)[0])
                + flags_tail(es.skip(k + 1).drop_first()));
            assert(flags_body(es)[off + entry.len()] == flags_tail(es.skip(k))[1 + entry.len() as int]);
            assert(flags_tail(es.skip(k))[1 + entry.len() as int] == flags_tail(es.skip(k + 1))[0]);
        } else {
            assert(es.skip(k + 1).len() == 0);
            assert(flags_tail(es.skip(k + 1)).len() == 0);
        }
    }
    // entry pieces line up with the text
    assert(off + entry.len() <= flags_body(es).len());
    assert(p + sl + 1 + bl <= j - 1);
    assert forall|m: int| 0 <= m < entry.len() implies sv[p + m] == entry[m] by {
        assert(sv[i + 1 + (off + m)] == flags_body(es)[off + m]);
    }
    assert forall|m: int|
        0 <= m < sl implies sv.subrange(p, p + sl)[m] == enc_string(es[k].0@)[m] by {
        assert(sv[p + m] == entry[m]);
        assert(entry[m] == enc_string(es[k].0@)[m]);
    }
    assert(sv.subrange(p, p + sl) =~= enc_string(es[k].0@));
    assert(entry[sl] == ':');
    assert(sv[p + sl] == ':');
    assert forall|m: int|
        0 <= m < bl implies sv.subrange(p + sl + 1, p + sl + 1 + bl)[m] == enc_bool(es[k].1)[m]
        by {
        assert(sv[p + sl + 1 + m] == entry[sl + 1 + m]);
        assert(entry[sl + 1 + m] == enc_bool(es[k].1)[m]);
    }
    assert(sv.subrange(p + sl + 1, p + sl + 1 + bl) =~= enc_bool(es[k].1));
    // the split of take(k+1) gives the cursor bookkeeping
    assert(es.take(k + 1).take(k) =~= es.take(k));
    if k == 0 {
        assert(flags_body(es.take(1)) == enc_flag_entry(es.take(1)[0]) + flags_tail(
            es.take(1).drop_first(),
        ));
        assert(es.take(1)[0] == es[0]);
        assert(es.take(1).drop_first() =~= Seq::<(String, bool)>::empty());
        assert(flags_body(es.take(1)).len() == entry.len());
    } else {
        lemma_flags_body_split(es.take(k + 1), k);
        assert(es.take(k + 1).skip(k).len() == 1);
        assert(es.take(k + 1).skip(k)[0] == es[k]);
        assert(flags_tail(es.take(k + 1).skip(k)) =~= seq![','] + entry + flags_tail(
            es.take(k + 1).skip(k).drop_first(),
        ));
        assert(es.take(k + 1).skip(k).drop_first() =~= Seq::<(String, bool)>::empty());
        assert(flags_body(es.take(k + 1)).len() == flags_body(es.take(k)).len() + 1 + entry.len());
    }
    // what comes after the entry
    if k + 1 < es.len() {
        assert(sv[i + 1 + (off + entry.len())] == flags_body(es)[off + entry.len()]);
    }
}

/// The comma-prefixed entry list distributes over concatenation.
proof fn lemma_vars_tail_concat(a: Seq<(String, i64)>, b: Seq<(String, i64)>)
    ensures
        vars_tail(a + b) == vars_tail(a) + vars_tail(b),
    decreases a.len(),
{
    if a.len() == 0 {
        assert(a + b =~= b);
        assert(vars_tail(a) == Seq::<char>::empty());
        assert(vars_tail(a) + vars_tail(b) =~= vars_tail(b));
    } else {
        assert((a + b)[0] == a[0]);
        assert((a + b).drop_first() =~= a.drop_first() + b);
        lemma_vars_tail_concat(a.drop_first(), b);
        assert(vars_tail(a + b) =~= vars_tail(a) + vars_tail(b));
    }
}

/// The body of a non-trivial prefix, followed by the tail of the rest, is
/// the whole body.
proof fn lemma_vars_body_split(es: Seq<(String, i64)>, k: int)
    requires
        1 <= k <= es.len(),
    ensures
        vars_body(es) == vars_body(es.take(k)) + vars_tail(es.skip(k)),
{
    assert(es.len() >= 1);
    assert(es.take(k)[0] == es[0]);
    assert(es.take(k).drop_first() =~= es.drop_first().take(k - 1));
    assert(es.drop_first().take(k - 1) + es.skip(k) =~= es.drop_first());
    lemma_vars_tail_concat(es.drop_first().take(k - 1), es.skip(k));
    assert(vars_tail(es.drop_first()) == vars_tail(es.drop_first().take(k - 1)) + vars_tail(
        es.skip(k),
    ));
    assert(vars_body(es) =~= vars_body(es.take(k)) + vars_tail(es.skip(k)));
}

/// The anatomy of the variables object inside a larger text: the braces, the
/// alignment of the body, and the tokens at the parser's cursor before
/// entry `k`.
proof fn vars_cursor_facts(sv: Seq<char>, i: int, j: int, es: Seq<(String, i64)>, k: int)
    requires
        0 <= i,
        i <= j <= sv.len(),
        sv.subrange(i, j) == enc_vars(es),
        0 <= k <= es.len(),
    ensures
        j == i + 2 + vars_body(es).len(),
        sv[i] == '{',
        sv[j - 1] == '}',
        forall|m: int| 0 <= m < vars_body(es).len() ==> sv[i + 1 + m] == vars_body(es)[m],
        k >= 1 ==> vars_body(es) == vars_body(es.take(k)) + vars_tail(es.skip(k)),
        k >= 1 && k < es.len() ==> vars_tail(es.skip(k)) == seq![','] + enc_var_entry(es[k])
            + vars_tail(es.skip(k + 1)),
        k == 0 && k < es.len() ==> vars_body(es) == enc_var_entry(es[0]) + vars_tail(
            es.skip(1),
        ),
{
    let enc = sv.subrange(i, j);
    assert(enc.len() == 2 + vars_body(es).len());
    assert(enc[0] == sv[i]);
    assert(enc[0] == '{');
    assert(enc[enc.len() - 1] == sv[j - 1]);
    assert(enc[enc.len() - 1] == '}');
    assert forall|m: int| 0 <= m < vars_body(es).len() implies sv[i + 1 + m] == vars_body(es)[m]
        by {
        assert(enc[1 + m] == sv[i + 1 + m]);
        assert(enc[1 + m] == vars_body(es)[m]);
    }
    if k >= 1 {
        lemma_vars_body_split(es, k);
        if k < es.len() {
            let rest = es.skip(k);
            assert(rest[0] == es[k]);
            assert(rest.drop_first() =~= es.skip(k + 1));
        }
    } else {
        if k < es.len() {
            assert(es.skip(1) =~= es.drop_first());
        }
    }
}

/// Parses the variables object.
#[verifier::rlimit(100)]
fn parse_vars(s: &str, i: usize) -> (r: Option<(Vec<(String, i64)>, usize)>)
    ensures
        r matches Some(p) ==> (i < p.1 <= s@.len() && s@.subrange(i as int, p.1 as int)
            == enc_vars(p.0@)),
        forall|es: Seq<(String, i64)>, j: int|
            #![trigger s@.subrange(i as int, j), enc_vars(es)]
            i <= j <= s@.len() && s@.subrange(i as int, j) == enc_vars(es) ==> (r matches Some(p)
                && p.1 == j && p.0@.len() == es.len() && (forall|m: int|
                0 <= m < es.len() ==> (#[trigger] p.0@[m]).0@ == es[m].0@ && p.0@[m].1
                    == es[m].1)),
{
    let n = s.unicode_len();
    if i >= n {
        proof {
            assert forall|es: Seq<(String, i64)>, j: int|
                i <= j <= s@.len() && s@.subrange(i as int, j) == enc_vars(es) implies false by {
                vars_cursor_facts(s@, i as int, j, es, 0);
            }
        }
        return None;
    }
    if s.get_char(i) != '{' {
        proof {
            assert forall|es: Seq<(String, i64)>, j: int|
                i <= j <= s@.len() && s@.subrange(i as int, j) == enc_vars(es) implies false by {
                vars_cursor_facts(s@, i as int, j, es, 0);
            }
        }
        return None;
    }
    let mut p: usize = i + 1;
    if p >= n {
        proof {
            assert forall|es: Seq<(String, i64)>, j: int|
                i <= j <= s@.len() && s@.subrange(i as int, j) == enc_vars(es) implies false by {
                vars_cursor_facts(s@, i as int, j, es, 0);
            }
        }
        return None;
    }
    let mut v: Vec<(String, i64)> = Vec::new();
    if s.get_char(p) == '}' {
        proof {
            assert forall|es: Seq<(String, i64)>, j: int|
                i <= j <= s@.len() && s@.subrange(i as int, j) == enc_vars(es) implies (es.len()
                == 0 && j == p + 1) by {
                vars_cursor_facts(s@, i as int, j, es, 0);
                if es.len() > 0 {
                    assert(vars_body(es) == enc_var_entry(es[0]) + vars_tail(es.skip(1)));
                    assert(vars_body(es)[0] == enc_var_entry(es[0])[0]);
                    assert(enc_var_entry(es[0])[0] == '"');
                    assert(s@[i as int + 1] == '"');
                    assert(false);
                }
            }
            assert(vars_body(v@) == Seq::<char>::empty());
            assert(s@.subrange(i as int, p as int + 1) =~= enc_vars(v@));
        }
        return Some((v, p + 1));
    }
    proof {
        assert forall|es: Seq<(String, i64)>, j: int|
            i <= j <= n && s@.subrange(i as int, j) == enc_vars(es) implies (v@.len() < es.len()
            && p == i + 1 + vars_body(es.take(v@.len() as int)).len() + (if v@.len() > 0 {
            1int
        } else {
            0int
        })) by {
            vars_cursor_facts(s@, i as int, j, es, 0);
            if es.len() == 0 {
                assert(vars_body(es).len() == 0);
                assert(j == i + 2);
                assert(s@[i as int + 1] == '}');
                assert(false);
            }
            assert(vars_body(es.take(0)).len() == 0);
        }
    }
    loop
        invariant
            n == s@.len(),
            i + 1 <= p <= n,
            s@[i as int] == '{',
            s@.subrange(i as int + 1, p as int) == vars_body(v@) + (if v@.len() > 0 {
                seq![',']
            } else {
                Seq::<char>::empty()
            }),
            forall|es: Seq<(String, i64)>, j: int|
                #![trigger s@.subrange(i as int, j), enc_vars(es)]
                i <= j <= n && s@.subrange(i as int, j) == enc_vars(es) ==> (v@.len() < es.len()
                    && (forall|m: int|
                    0 <= m < v@.len() ==> (#[trigger] v@[m]).0@ == es[m].0@ && v@[m].1
                        == es[m].1) && p == i + 1 + vars_body(es.take(v@.len() as int)).len() + (
                if v@.len() > 0 {
                    1int
                } else {
                    0int
                })),
        decreases n - p,
    {
        let ghost k = v@.len() as int;
        let ghost p0 = p as int;
        let (key, q1) = match parse_string(s, p) {
            Some(kq) => kq,
            None => {
                proof {
                    assert forall|es: Seq<(String, i64)>, j: int|
                        i <= j <= s@.len() && s@.subrange(i as int, j) == enc_vars(
                            es,
                        ) implies false by {
                        vars_cursor_facts(s@, i as int, j, es, k);
                        vars_entry_window(s@, i as int, j, es, k, p0);
                    }
                }
                return None;
            },
        };
        proof {
            assert forall|es: Seq<(String, i64)>, j: int|
                i <= j <= n && s@.subrange(i as int, j) == enc_vars(es) implies (key@
                == es[k].0@ && q1 == p0 + enc_string(es[k].0@).len()) by {
                vars_cursor_facts(s@, i as int, j, es, k);
                vars_entry_window(s@, i as int, j, es, k, p0);
            }
        }
        if q1 >= n {
            proof {
                assert forall|es: Seq<(String, i64)>, j: int|
                    i <= j <= s@.len() && s@.subrange(i as int, j) == enc_vars(
                        es,
                    ) implies false by {
                    vars_cursor_facts(s@, i as int, j, es, k);
                    vars_entry_window(s@, i as int, j, es, k, p0);
                }
            }
            return None;
        }
        if s.get_char(q1) != ':' {
            proof {
                assert forall|es: Seq<(String, i64)>, j: int|
                    i <= j <= s@.len() && s@.subrange(i as int, j) == enc_vars(
                        es,
                    ) implies false by {
                    vars_cursor_facts(s@, i as int, j, es, k);
                    vars_entry_window(s@, i as int, j, es, k, p0);
                }
            }
            return None;
        }
        let q2 = q1 + 1;
        let (val, q3) = match parse_i64(s, q2) {
            Some(vq) => vq,
            None => {
                proof {
                    assert forall|es: Seq<(String, i64)>, j: int|
                        i <= j <= s@.len() && s@.subrange(i as int, j) == enc_vars(
                            es,
                        ) implies false by {
                        vars_cursor_facts(s@, i as int, j, es, k);
                        vars_entry_window(s@, i as int, j, es, k, p0);
                        let sl = enc_string(es[k].0@).len() as int;
                        let bl = enc_i64(es[k].1 as int).len() as int;
                        assert(s@.subrange(q2 as int, q2 as int + bl) == enc_i64(
                            es[k].1 as int,
                        ));
                        if k + 1 == es.len() {
                            assert(q2 as int + bl == j - 1);
                            assert(s@[j - 1] == '}');
                            assert(!is_digit(s@[q2 as int + bl]));
                        } else {
                            assert(s@[q2 as int + bl] == ',');
                            assert(!is_digit(s@[q2 as int + bl]));
                        }
                    }
                }
                return None;
            },
        };
        proof {
            assert forall|es: Seq<(String, i64)>, j: int|
                i <= j <= n && s@.subrange(i as int, j) == enc_vars(es) implies (val == es[k].1
                && q3 == p0 + enc_var_entry(es[k]).len()) by {
                vars_cursor_facts(s@, i as int, j, es, k);
                vars_entry_window(s@, i as int, j, es, k, p0);
                let sl = enc_string(es[k].0@).len() as int;
                let bl = enc_i64(es[k].1 as int).len() as int;
                assert(s@.subrange(q2 as int, q2 as int + bl) == enc_i64(es[k].1 as int));
                if k + 1 == es.len() {
                    assert(q2 as int + bl == j - 1);
                    assert(s@[j - 1] == '}');
                    assert(!is_digit(s@[q2 as int + bl]));
                } else {
                    assert(s@[q2 as int + bl] == ',');
                    assert(!is_digit(s@[q2 as int + bl]));
                }
            }
        }
        let ghost vprev = v@;
        v.push((key, val));
        proof {
            assert(s@.subrange(p0, q3 as int) =~= enc_string(key@) + seq![':'] + enc_i64(val as int));
            assert(enc_var_entry(v@[k as int]) == enc_string(key@) + seq![':'] + enc_i64(val as int));
            lemma_vars_body_push(vprev, (v@[k as int].0, v@[k as int].1));
            assert(vprev.push(v@[k as int]) =~= v@);
            assert((v@[k as int].0, v@[k as int].1) == v@[k as int]);
            assert(s@.subrange(i as int + 1, q3 as int) =~= vars_body(v@));
        }
        p = q3;
        if p >= n {
            proof {
                assert forall|es: Seq<(String, i64)>, j: int|
                    i <= j <= s@.len() && s@.subrange(i as int, j) == enc_vars(
                        es,
                    ) implies false by {
                    vars_cursor_facts(s@, i as int, j, es, k);
                    vars_entry_window(s@, i as int, j, es, k, p0);
                    assert(p0 + enc_var_entry(es[k]).len() <= j - 1);
                }
            }
            return None;
        }
        let c = s.get_char(p);
        if c == '}' {
            proof {
                assert forall|es: Seq<(String, i64)>, j: int|
                    i <= j <= s@.len() && s@.subrange(i as int, j) == enc_vars(es) implies (
                v@.len() == es.len() && j == p + 1 && (forall|m: int|
                    0 <= m < es.len() ==> (#[trigger] v@[m]).0@ == es[m].0@ && v@[m].1
                        == es[m].1)) by {
                    vars_cursor_facts(s@, i as int, j, es, k);
                    vars_entry_window(s@, i as int, j, es, k, p0);
                    if k + 1 < es.len() {
                        assert(s@[p as int] == ',');
                        assert(false);
                    }
                    assert(v@.len() == es.len());
                    assert(j == p + 1);
                }
                assert(s@.subrange(i as int, p as int + 1) =~= enc_vars(v@));
            }
            return Some((v, p + 1));
        }
        if c != ',' {
            proof {
                assert forall|es: Seq<(String, i64)>, j: int|
                    i <= j <= s@.len() && s@.subrange(i as int, j) == enc_vars(
                        es,
                    ) implies false by {
                    vars_cursor_facts(s@, i as int, j, es, k);
                    vars_entry_window(s@, i as int, j, es, k, p0);
                    if k + 1 < es.len() {
                        assert(s@[p as int] == ',');
                    } else {
                        assert(p == j - 1);
                        assert(s@[j - 1] == '}');
                    }
                    assert(false);
                }
            }
            return None;
        }
        p = p + 1;
        proof {
            assert(s@.subrange(i as int + 1, p as int) =~= vars_body(v@) + seq![',']);
            assert forall|es: Seq<(String, i64)>, j: int|
                i <= j <= n && s@.subrange(i as int, j) == enc_vars(es) implies (v@.len()
                < es.len() && (forall|m: int|
                0 <= m < v@.len() ==> (#[trigger] v@[m]).0@ == es[m].0@ && v@[m].1 == es[m].1) && p
                == i + 1 + vars_body(es.take(v@.len() as int)).len() + 1) by {
                vars_cursor_facts(s@, i as int, j, es, k);
                vars_entry_window(s@, i as int, j, es, k, p0);
                if k + 1 == es.len() {
                    assert(p - 1 == j - 1);
                    assert(s@[j - 1] == '}');
                    assert(false);
                }
            }
        }
    }
}

/// The tokens of entry `k` of the variables object, as they stand in the text
/// when the parser's cursor is at the entry's first character.
proof fn vars_entry_window(
    sv: Seq<char>,
    i: int,
    j: int,
    es: Seq<(String, i64)>,
    k: int,
    p: int,
)
    requires
        0 <= i,
        i <= j <= sv.len(),
        sv.subrange(i, j) == enc_vars(es),
        0 <= k < es.len(),
        p == i + 1 + vars_body(es.take(k)).len() + (if k > 0 {
            1int
        } else {
            0int
        }),
    ensures
        ({
            let sl = enc_string(es[k].0@).len() as int;
            let bl = enc_i64(es[k].1 as int).len() as int;
            &&& p + sl + 1 + bl <= j - 1
            &&& sv.subrange(p, p + sl) == enc_string(es[k].0@)
            &&& sv[p + sl] == ':'
            &&& sv.subrange(p + sl + 1, p + sl + 1 + bl) == enc_i64(es[k].1 as int)
            &&& (k + 1 == es.len() ==> p + sl + 1 + bl == j - 1)
            &&& (k + 1 < es.len() ==> sv[p + sl + 1 + bl] == ',')
            &&& vars_body(es.take(k + 1)).len() + i + 1 == p + sl + 1 + bl
        }),
{
    vars_cursor_facts(sv, i, j, es, k);
    let sl = enc_string(es[k].0@).len() as int;
    let bl = enc_i64(es[k].1 as int).len() as int;
    let entry = enc_var_entry(es[k]);
    assert(entry.len() == sl + 1 + bl);
    let off = p - (i + 1);
    // the body from `off` onward starts with this entry
    if k == 0 {
        assert(vars_body(es) == entry + vars_tail(es.skip(1)));
        assert(off == 0);
        assert forall|m: int| 0 <= m < entry.len() implies vars_body(es)[off + m] == entry[m] by {
        }
        assert(vars_body(es).len() == entry.len() + vars_tail(es.skip(1)).len());
        if k + 1 < es.len() {
            assert(es.skip(1).len() > 0);
            assert(vars_tail(es.skip(1)) == seq![','] + enc_var_entry(es.skip(1)[0])
                + vars_tail(es.skip(1).drop_first()));
            assert(vars_body(es)[off + entry.len()] == vars_tail(es.skip(1))[0]);
        } else {
            assert(es.skip(1).len() == 0);
            assert(vars_tail(es.skip(1)).len() == 0);
        }
    } else {
        assert(vars_body(es) == vars_body(es.take(k)) + vars_tail(es.skip(k)));
        assert(vars_tail(es.skip(k)) == seq![','] + entry + vars_tail(es.skip(k + 1)));
        assert(off == vars_body(es.take(k)).len() + 1);
        assert forall|m: int| 0 <= m < entry.len() implies vars_body(es)[off + m] == entry[m] by {
            assert(vars_body(es)[off + m] == vars_tail(es.skip(k))[1 + m]);
        }
        assert(vars_body(es).len() == vars_body(es.take(k)).len() + 1 + entry.len()
            + vars_tail(es.skip(k + 1)).len());
        if k + 1 < es.len() {
            assert(es.skip(k + 1).len() > 0);
            assert(vars_tail(es.skip(k + 1)) == seq![','] + enc_var_entry(es.skip(k + 1)[0])
                + vars_tail(es.skip(k + 1).drop_first()));
            assert(vars_body(es)[off + entry.len()] == vars_tail(es.skip(k))[1 + entry.len() as int]);
            assert(vars_tail(es.skip(k))[1 + entry.len() as int] == vars_tail(es.skip(k + 1))[0]);
        } else {
            assert(es.skip(k + 1).len() == 0);
            assert(vars_tail(es.skip(k + 1)).len() == 0);
        }
    }
    // entry pieces line up with the text
    assert(off + entry.len() <= vars_body(es).len());
    assert(p + sl + 1 + bl <= j - 1);
    assert forall|m: int| 0 <= m < entry.len() implies sv[p + m] == entry[m] by {
        assert(sv[i + 1 + (off + m)] == vars_body(es)[off + m]);
    }
    assert forall|m: int|
        0 <= m < sl implies sv.subrange(p, p + sl)[m] == enc_string(es[k].0@)[m] by {
        assert(sv[p + m] == entry[m]);
        assert(entry[m] == enc_string(es[k].0@)[m]);
    }
    assert(sv.subrange(p, p + sl) =~= enc_string(es[k].0@));
    assert(entry[sl] == ':');
    assert(sv[p + sl] == ':');
    assert forall|m: int|
        0 <= m < bl implies sv.subrange(p + sl + 1, p + sl + 1 + bl)[m] == enc_i64(es[k].1 as int)[m]
        by {
        assert(sv[p + sl + 1 + m] == entry[sl + 1 + m]);
        assert(entry[sl + 1 + m] == enc_i64(es[k].1 as int)[m]);
    }
    assert(sv.subrange(p + sl + 1, p + sl + 1 + bl) =~= enc_i64(es[k].1 as int));
    // the split of take(k+1) gives the cursor bookkeeping
    assert(es.take(k + 1).take(k) =~= es.take(k));
    if k == 0 {
        assert(vars_body(es.take(1)) == enc_var_entry(es.take(1)[0]) + vars_tail(
            es.take(1).drop_first(),
        ));
        assert(es.take(1)[0] == es[0]);
        assert(es.take(1).drop_first() =~= Seq::<(String, i64)>::empty());
        assert(vars_body(es.take(1)).len() == entry.len());
    } else {
        lemma_vars_body_split(es.take(k + 1), k);
        assert(es.take(k + 1).skip(k).len() == 1);
        assert(es.take(k + 1).skip(k)[0] == es[k]);
        assert(vars_tail(es.take(k + 1).skip(k)) =~= seq![','] + entry + vars_tail(
            es.take(k + 1).skip(k).drop_first(),
        ));
        assert(es.take(k + 1).skip(k).drop_first() =~= Seq::<(String, i64)>::empty());
        assert(vars_body(es.take(k + 1)).len() == vars_body(es.take(k)).len() + 1 + entry.len());
    }
    // what comes after the entry
    if k + 1 < es.len() {
        assert(sv[i + 1 + (off + entry.len())] == vars_body(es)[off + entry.len()]);
    }
}

/// How the pieces of an encoded record line up inside the text: every
/// literal, string, number and object of the document sits at its fixed
/// offset.
#[verifier::rlimit(100)]
proof fn state_pieces(sv: Seq<char>, st: GameState)
    requires
        sv == enc_state(st),
    ensures
        ({
            let l0 = "{\"current_course_id\":"@;
            let l1 = ",\"course_version_seen\":"@;
            let l2 = ",\"current_quest_id\":"@;
            let l3 = ",\"current_chapter_index\":"@;
            let l4 = ",\"current_task_index\":"@;
            let l5 = ",\"flags\":"@;
            let l6 = ",\"variables\":"@;
            let l7 = ",\"is_finished\":"@;
            let o0 = l0.len() as int;
            let o1 = o0 + enc_string(st.current_course_id@).len();
            let o2 = o1 + l1.len();
            let o3 = o2 + enc_string(st.course_version_seen@).len();
            let o4 = o3 + l2.len();
            let o5 = o4 + enc_string(st.current_quest_id@).len();
            let o6 = o5 + l3.len();
            let o7 = o6 + enc_u64(st.current_chapter_index as nat).len();
            let o8 = o7 + l4.len();
            let o9 = o8 + enc_u64(st.current_task_index as nat).len();
            let o10 = o9 + l5.len();
            let o11 = o10 + enc_flags(st.flags@).len();
            let o12 = o11 + l6.len();
            let o13 = o12 + enc_vars(st.variables@).len();
            let o14 = o13 + l7.len();
            let o15 = o14 + enc_bool(st.is_finished).len();
            &&& sv.len() == o15 + 1
            &&& sv.subrange(0, o0) == l0
            &&& sv.subrange(o0, o1) == enc_string(st.current_course_id@)
            &&& sv.subrange(o1, o2) == l1
            &&& sv.subrange(o2, o3) == enc_string(st.course_version_seen@)
            &&& sv.subrange(o3, o4) == l2
            &&& sv.subrange(o4, o5) == enc_string(st.current_quest_id@)
            &&& sv.subrange(o5, o6) == l3
            &&& sv.subrange(o6, o7) == enc_u64(st.current_chapter_index as nat)
            &&& sv.subrange(o7, o8) == l4
            &&& sv.subrange(o8, o9) == enc_u64(st.current_task_index as nat)
            &&& sv.subrange(o9, o10) == l5
            &&& sv.subrange(o10, o11) == enc_flags(st.flags@)
            &&& sv.subrange(o11, o12) == l6
            &&& sv.subrange(o12, o13) == enc_vars(st.variables@)
            &&& sv.subrange(o13, o14) == l7
            &&& sv.subrange(o14, o15) == enc_bool(st.is_finished)
            &&& sv.subrange(o15, o15 + 1) == seq!['}']
            &&& sv[o7] == ','
            &&& sv[o9] == ','
        }),
{
    let l0 = "{\"current_course_id\":"@;
    let l1 = ",\"course_version_seen\":"@;
    let l2 = ",\"current_quest_id\":"@;
    let l3 = ",\"current_chapter_index\":"@;
    let l4 = ",\"current_task_index\":"@;
    let l5 = ",\"flags\":"@;
    let l6 = ",\"variables\":"@;
    let l7 = ",\"is_finished\":"@;
    let o0 = l0.len() as int;
    let o1 = o0 + enc_string(st.current_course_id@).len();
    let o2 = o1 + l1.len();
    let o3 = o2 + enc_string(st.course_version_seen@).len();
    let o4 = o3 + l2.len();
    let o5 = o4 + enc_string(st.current_quest_id@).len();
    let o6 = o5 + l3.len();
    let o7 = o6 + enc_u64(st.current_chapter_index as nat).len();
    let o8 = o7 + l4.len();
    let o9 = o8 + enc_u64(st.current_task_index as nat).len();
    let o10 = o9 + l5.len();
    let o11 = o10 + enc_flags(st.flags@).len();
    let o12 = o11 + l6.len();
    let o13 = o12 + enc_vars(st.variables@).len();
    let o14 = o13 + l7.len();
    let o15 = o14 + enc_bool(st.is_finished).len();
    assert(sv.subrange(0, o0) =~= l0);
    assert(sv.subrange(o0, o1) =~= enc_string(st.current_course_id@));
    assert(sv.subrange(o1, o2) =~= l1);
    assert(sv.subrange(o2, o3) =~= enc_string(st.course_version_seen@));
    assert(sv.subrange(o3, o4) =~= l2);
    assert(sv.subrange(o4, o5) =~= enc_string(st.current_quest_id@));
    assert(sv.subrange(o5, o6) =~= l3);
    assert(sv.subrange(o6, o7) =~= enc_u64(st.current_chapter_index as nat));
    assert(sv.subrange(o7, o8) =~= l4);
    assert(sv.subrange(o8, o9) =~= enc_u64(st.current_task_index as nat));
    assert(sv.subrange(o9, o10) =~= l5);
    assert(sv.subrange(o10, o11) =~= enc_flags(st.flags@));
    assert(sv.subrange(o11, o12) =~= l6);
    assert(sv.subrange(o12, o13) =~= enc_vars(st.variables@));
    assert(sv.subrange(o13, o14) =~= l7);
    assert(sv.subrange(o14, o15) =~= enc_bool(st.is_finished));
    assert(sv.subrange(o15, o15 + 1) =~= seq!['}']);
    reveal_strlit(",\"current_task_index\":");
    reveal_strlit(",\"flags\":");
    assert(sv[o7] == l4[0]);
    assert(l4[0] == ',');
    assert(sv[o9] == l5[0]);
    assert(l5[0] == ',');
}

/// The leading half of an encoded record: everything before the flags
/// object.
pub open spec fn head_prefix(
    cid: Seq<char>,
    ver: Seq<char>,
    qid: Seq<char>,
    ch: nat,
    tk: nat,
) -> Seq<char> {
    "{\"current_course_id\":"@ + enc_string(cid) + ",\"course_version_seen\":"@ + enc_string(ver)
        + ",\"current_quest_id\":"@ + enc_string(qid) + ",\"current_chapter_index\":"@ + enc_u64(
        ch,
    ) + ",\"current_task_index\":"@ + enc_u64(tk)
}

/// Parses the identifier and index fields of a save document.
#[verifier::rlimit(100)]
fn decode_head(s: &str) -> (r: Option<(String, String, String, u64, u64, usize)>)
    ensures
        r matches Some(h) ==> (h.5 <= s@.len() && s@.subrange(0, h.5 as int) == head_prefix(
            h.0@,
            h.1@,
            h.2@,
            h.3 as nat,
            h.4 as nat,
        )),
        forall|st: GameState| #[trigger] enc_state(st) == s@ ==> (r matches Some(h) && h.0@
            == st.current_course_id@ && h.1@ == st.course_version_seen@ && h.2@
            == st.current_quest_id@ && h.3 == st.current_chapter_index as u64 && h.4
            == st.current_task_index as u64 && h.5 as int == head_prefix(
            st.current_course_id@,
            st.course_version_seen@,
            st.current_quest_id@,
            st.current_chapter_index as nat,
            st.current_task_index as nat,
        ).len()),
{
    let r0 = expect_lit(s, 0, "{\"current_course_id\":");
    let r1 = match r0 {
        Some(q0) => parse_string(s, q0),
        None => None,
    };
    let r2 = match &r1 {
        Some((_, q1)) => expect_lit(s, *q1, ",\"course_version_seen\":"),
        None => None,
    };
    let r3 = match r2 {
        Some(q2) => parse_string(s, q2),
        None => None,
    };
    let r4 = match &r3 {
        Some((_, q3)) => expect_lit(s, *q3, ",\"current_quest_id\":"),
        None => None,
    };
    let r5 = match r4 {
        Some(q4) => parse_string(s, q4),
        None => None,
    };
    let r6 = match &r5 {
        Some((_, q5)) => expect_lit(s, *q5, ",\"current_chapter_index\":"),
        None => None,
    };
    let r7 = match r6 {
        Some(q6) => parse_u64(s, q6),
        None => None,
    };
    let r8 = match r7 {
        Some((_, q7)) => expect_lit(s, q7, ",\"current_task_index\":"),
        None => None,
    };
    let r9 = match r8 {
        Some(q8) => parse_u64(s, q8),
        None => None,
    };
    proof {
        assert forall|st: GameState| #[trigger] enc_state(st) == s@ implies ((r1 matches Some(p1)
            && p1.0@ == st.current_course_id@) && (r3 matches Some(p3) && p3.0@
            == st.course_version_seen@) && (r5 matches Some(p5) && p5.0@ == st.current_quest_id@)
            && (r7 matches Some(p7) && p7.0 == st.current_chapter_index as u64) && (
        r9 matches Some(p9) && p9.0 == st.current_task_index as u64 && p9.1 as int == head_prefix(
            st.current_course_id@,
            st.course_version_seen@,
            st.current_quest_id@,
            st.current_chapter_index as nat,
            st.current_task_index as nat,
        ).len())) by {
            state_pieces(s@, st);
            let l0 = "{\"current_course_id\":"@;
            let o0 = l0.len() as int;
            assert(s@.subrange(0, o0) == l0);
            assert(0 + l0.len() <= s@.len());
            assert(r0 matches Some(q0) && q0 == o0);
            let q0 = r0->Some_0;
            let o1 = o0 + enc_string(st.current_course_id@).len();
            assert(s@.subrange(q0 as int, o1) == enc_string(st.current_course_id@));
            assert(r1 matches Some(p) && p.0@ == st.current_course_id@ && p.1 == o1);
            let q1 = r1->Some_0.1;
            let l1 = ",\"course_version_seen\":"@;
            let o2 = o1 + l1.len();
            assert(s@.subrange(q1 as int, q1 as int + l1.len()) == l1);
            assert(r2 matches Some(q) && q == o2);
            let q2 = r2->Some_0;
            let o3 = o2 + enc_string(st.course_version_seen@).len();
            assert(s@.subrange(q2 as int, o3) == enc_string(st.course_version_seen@));
            assert(r3 matches Some(p) && p.0@ == st.course_version_seen@ && p.1 == o3);
            let q3 = r3->Some_0.1;
            let l2 = ",\"current_quest_id\":"@;
            let o4 = o3 + l2.len();
            assert(s@.subrange(q3 as int, q3 as int + l2.len()) == l2);
            assert(r4 matches Some(q) && q == o4);
            let q4 = r4->Some_0;
            let o5 = o4 + enc_string(st.current_quest_id@).len();
            assert(s@.subrange(q4 as int, o5) == enc_string(st.current_quest_id@));
            assert(r5 matches Some(p) && p.0@ == st.current_quest_id@ && p.1 == o5);
            let q5 = r5->Some_0.1;
            let l3 = ",\"current_chapter_index\":"@;
            let o6 = o5 + l3.len();
            assert(s@.subrange(q5 as int, q5 as int + l3.len()) == l3);
            assert(r6 matches Some(q) && q == o6);
            let q6 = r6->Some_0;
            let o7 = o6 + enc_u64(st.current_chapter_index as nat).len();
            let chv: u64 = st.current_chapter_index as u64;
            assert(chv as nat == st.current_chapter_index as nat);
            assert(s@.subrange(q6 as int, o7) == enc_u64(chv as nat));
            assert(!is_digit(s@[o7]));
            assert(r7 matches Some(p) && p.0 == chv && p.1 == o7);
            let q7 = r7->Some_0.1;
            let l4 = ",\"current_task_index\":"@;
            let o8 = o7 + l4.len();
            assert(s@.subrange(q7 as int, q7 as int + l4.len()) == l4);
            assert(r8 matches Some(q) && q == o8);
            let q8 = r8->Some_0;
            let o9 = o8 + enc_u64(st.current_task_index as nat).len();
            let tkv: u64 = st.current_task_index as u64;
            assert(tkv as nat == st.current_task_index as nat);
            assert(s@.subrange(q8 as int, o9) == enc_u64(tkv as nat));
            assert(!is_digit(s@[o9]));
            assert(r9 matches Some(p) && p.0 == tkv && p.1 == o9);
        }
    }
    let (cid, q1) = match r1 {
        Some(p) => p,
        None => {
            return None;
        },
    };
    let (ver, q3) = match r3 {
        Some(p) => p,
        None => {
            return None;
        },
    };
    let (qid, q5) = match r5 {
        Some(p) => p,
        None => {
            return None;
        },
    };
    let (chv, q7) = match r7 {
        Some(p) => p,
        None => {
            return None;
        },
    };
    let (tkv, q9) = match r9 {
        Some(p) => p,
        None => {
            return None;
        },
    };
    proof {
        let q0 = r0->Some_0 as int;
        let q2 = r2->Some_0 as int;
        let q4 = r4->Some_0 as int;
        let q6 = r6->Some_0 as int;
        let q8 = r8->Some_0 as int;
        assert(s@.subrange(0, q1 as int) =~= s@.subrange(0, q0) + s@.subrange(q0, q1 as int));
        assert(s@.subrange(0, q2) =~= s@.subrange(0, q1 as int) + s@.subrange(q1 as int, q2));
        assert(s@.subrange(0, q3 as int) =~= s@.subrange(0, q2) + s@.subrange(q2, q3 as int));
        assert(s@.subrange(0, q4) =~= s@.subrange(0, q3 as int) + s@.subrange(q3 as int, q4));
        assert(s@.subrange(0, q5 as int) =~= s@.subrange(0, q4) + s@.subrange(q4, q5 as int));
        assert(s@.subrange(0, q6) =~= s@.subrange(0, q5 as int) + s@.subrange(q5 as int, q6));
        assert(s@.subrange(0, q7 as int) =~= s@.subrange(0, q6) + s@.subrange(q6, q7 as int));
        assert(s@.subrange(0, q8) =~= s@.subrange(0, q7 as int) + s@.subrange(q7 as int, q8));
        assert(s@.subrange(0, q9 as int) =~= s@.subrange(0, q8) + s@.subrange(q8, q9 as int));
        assert(s@.subrange(0, q9 as int) == head_prefix(
            cid@,
            ver@,
            qid@,
            chv as nat,
            tkv as nat,
        ));
    }
    Some((cid, ver, qid, chv, tkv, q9))
}

/// Parses an entire save document, accepting nothing but the exact
/// encoding of some record — and accepting every such encoding, returning
/// that record.
#[verifier::rlimit(100)]
pub fn decode_state(s: &str) -> (r: Option<GameState>)
    ensures
        r matches Some(st) ==> s@ == enc_state(st),
        forall|st: GameState| #[trigger] enc_state(st) == s@ ==> (r matches Some(out)
            && same_record_views(out, st)),
{
    let n = s.unicode_len();
    let head = decode_head(s);
    let r10 = match &head {
        Some(h) => expect_lit(s, h.5, ",\"flags\":"),
        None => None,
    };
    let r11 = match r10 {
        Some(q10) => parse_flags(s, q10),
        None => None,
    };
    let r12 = match &r11 {
        Some((_, q11)) => expect_lit(s, *q11, ",\"variables\":"),
        None => None,
    };
    let r13 = match r12 {
        Some(q12) => parse_vars(s, q12),
        None => None,
    };
    let r14 = match &r13 {
        Some((_, q13)) => expect_lit(s, *q13, ",\"is_finished\":"),
        None => None,
    };
    let r15 = match r14 {
        Some(q14) => parse_bool(s, q14),
        None => None,
    };
    let r16 = match r15 {
        Some((_, q15)) => expect_lit(s, q15, "}"),
        None => None,
    };
    proof {
        assert forall|st: GameState| #[trigger] enc_state(st) == s@ implies ((r16 matches Some(
            q16,
        ) && q16 == s@.len()) && (r11 matches Some(p11) && p11.0@.len() == st.flags@.len() && (
        forall|m: int|
            0 <= m < st.flags@.len() ==> (#[trigger] p11.0@[m]).0@ == st.flags@[m].0@
                && p11.0@[m].1 == st.flags@[m].1)) && (r13 matches Some(p13) && p13.0@.len()
            == st.variables@.len() && (forall|m: int|
            0 <= m < st.variables@.len() ==> (#[trigger] p13.0@[m]).0@ == st.variables@[m].0@
                && p13.0@[m].1 == st.variables@[m].1)) && (r15 matches Some(p15) && p15.0
            == st.is_finished)) by {
            state_pieces(s@, st);
            let o9 = head_prefix(
                st.current_course_id@,
                st.course_version_seen@,
                st.current_quest_id@,
                st.current_chapter_index as nat,
                st.current_task_index as nat,
            ).len() as int;
            assert(head matches Some(h) && h.5 as int == o9);
            let q9 = head->Some_0.5;
            let l5 = ",\"flags\":"@;
            let o10 = o9 + l5.len();
            assert(s@.subrange(q9 as int, q9 as int + l5.len()) == l5);
            assert(r10 matches Some(q) && q == o10);
            let q10 = r10->Some_0;
            let o11 = o10 + enc_flags(st.flags@).len();
            assert(s@.subrange(q10 as int, o11) == enc_flags(st.flags@));
            assert(r11 matches Some(p) && p.1 == o11);
            let q11 = r11->Some_0.1;
            let l6 = ",\"variables\":"@;
            let o12 = o11 + l6.len();
            assert(s@.subrange(q11 as int, q11 as int + l6.len()) == l6);
            assert(r12 matches Some(q) && q == o12);
            let q12 = r12->Some_0;
            let o13 = o12 + enc_vars(st.variables@).len();
            assert(s@.subrange(q12 as int, o13) == enc_vars(st.variables@));
            assert(r13 matches Some(p) && p.1 == o13);
            let q13 = r13->Some_0.1;
            let l7 = ",\"is_finished\":"@;
            let o14 = o13 + l7.len();
            assert(s@.subrange(q13 as int, q13 as int + l7.len()) == l7);
            assert(r14 matches Some(q) && q == o14);
            let q14 = r14->Some_0;
            let o15 = o14 + enc_bool(st.is_finished).len();
            assert(s@.subrange(q14 as int, o15) == enc_bool(st.is_finished));
            assert(r15 matches Some(p) && p.0 == st.is_finished && p.1 == o15);
            let q15 = r15->Some_0.1;
            assert(("}"@).len() == 1) by {
                reveal_strlit("}");
            }
            assert(("}"@) =~= seq!['}']) by {
                reveal_strlit("}");
            }
            assert(s@.subrange(q15 as int, q15 as int + ("}"@).len()) == ("}"@));
            assert(r16 matches Some(q) && q == o15 + 1);
            assert(o15 + 1 == s@.len());
        }
    }
    let q16 = match r16 {
        Some(q) => q,
        None => {
            return None;
        },
    };
    if q16 != n {
        return None;
    }
    let (cid, ver, qid, chv, tkv, q9) = match head {
        Some(h) => h,
        None => {
            return None;
        },
    };
    let (fl, q11) = match r11 {
        Some(p) => p,
        None => {
            return None;
        },
    };
    let (vr, q13) = match r13 {
        Some(p) => p,
        None => {
            return None;
        },
    };
    let (fin, q15) = match r15 {
        Some(p) => p,
        None => {
            return None;
        },
    };
    if chv > (usize::MAX as u64) {
        return None;
    }
    if tkv > (usize::MAX as u64) {
        return None;
    }
    let st = GameState {
        current_course_id: cid,
        course_version_seen: ver,
        current_quest_id: qid,
        current_chapter_index: chv as usize,
        current_task_index: tkv as usize,
        flags: fl,
        variables: vr,
        is_finished: fin,
    };
    proof {
        let q10 = r10->Some_0 as int;
        let q12 = r12->Some_0 as int;
        let q14 = r14->Some_0 as int;
        assert(s@.subrange(0, q10) =~= s@.subrange(0, q9 as int) + s@.subrange(q9 as int, q10));
        assert(s@.subrange(0, q11 as int) =~= s@.subrange(0, q10) + s@.subrange(
            q10,
            q11 as int,
        ));
        assert(s@.subrange(0, q12) =~= s@.subrange(0, q11 as int) + s@.subrange(
            q11 as int,
            q12,
        ));
        assert(s@.subrange(0, q13 as int) =~= s@.subrange(0, q12) + s@.subrange(
            q12,
            q13 as int,
        ));
        assert(s@.subrange(0, q14) =~= s@.subrange(0, q13 as int) + s@.subrange(
            q13 as int,
            q14,
        ));
        assert(s@.subrange(0, q15 as int) =~= s@.subrange(0, q14) + s@.subrange(
            q14,
            q15 as int,
        ));
        assert(s@.subrange(0, q16 as int) =~= s@.subrange(0, q15 as int) + s@.subrange(
            q15 as int,
            q16 as int,
        ));
        assert(("}"@) =~= seq!['}']) by {
            reveal_strlit("}");
        }
        assert(s@.subrange(q15 as int, q16 as int) == seq!['}']);
        assert((chv as usize) as nat == chv as nat);
        assert((tkv as usize) as nat == tkv as nat);
        assert(s@ =~= s@.subrange(0, q16 as int));
        assert(s@ == enc_state(st));
    }
    Some(st)
}

/// A record with no progress: empty identifiers, position (0, 0), no
/// session data, not finished.
pub open spec fn fresh_record(r: GameState) -> bool {
    &&& r.current_course_id@ == Seq::<char>::empty()
    &&& r.course_version_seen@ == Seq::<char>::empty()
    &&& r.current_quest_id@ == Seq::<char>::empty()
    &&& r.current_chapter_index == 0
    &&& r.current_task_index == 0
    &&& r.flags@.len() == 0
    &&& r.variables@.len() == 0
    &&& !r.is_finished
}

/// The two records agree on every field, comparing strings by content.
pub open spec fn same_record_views(a: GameState, b: GameState) -> bool {
    &&& a.current_course_id@ == b.current_course_id@
    &&& a.course_version_seen@ == b.course_version_seen@
    &&& a.current_quest_id@ == b.current_quest_id@
    &&& a.current_chapter_index == b.current_chapter_index
    &&& a.current_task_index == b.current_task_index
    &&& a.is_finished == b.is_finished
    &&& a.flags@.len() == b.flags@.len()
    &&& (forall|m: int|
        0 <= m < a.flags@.len() ==> (#[trigger] a.flags@[m]).0@ == b.flags@[m].0@ && a.flags@[m].1
            == b.flags@[m].1)
    &&& a.variables@.len() == b.variables@.len()
    &&& (forall|m: int|
        0 <= m < a.variables@.len() ==> (#[trigger] a.variables@[m]).0@ == b.variables@[m].0@
            && a.variables@[m].1 == b.variables@[m].1)
}

impl GameState {
    /// Restores a record from the save text: the encoded record when the
    /// text is an exact encoding, and a fresh record for a missing file or
    /// any other text — corrupt saves recover, they never fail.
    pub fn load(text: Option<&str>) -> (r: GameState)
        ensures
            text is None ==> fresh_record(r),
            text matches Some(t) ==> ((forall|st: GameState| #[trigger] enc_state(st) != t@)
                ==> fresh_record(r)),
            text matches Some(t) ==> (forall|st: GameState|
                #[trigger] enc_state(st) == t@ ==> same_record_views(r, st)),
    {
        match text {
            Some(t) => {
                match decode_state(t) {
                    Some(st) => st,
                    None => GameState::new(),
                }
            },
            None => GameState::new(),
        }
    }
}

impl GameState {
    /// Serializes the record as exactly its spec-level encoding. Writing
    /// the text to a temporary file and renaming it over the save path is
    /// the caller's job; this function fixes every byte of what is written.
    pub fn save(&self) -> (r: String)
        ensures
            r@ == enc_state(*self),
    {
        let mut out = String::new();
        out.append("{\"current_course_id\":");
        push_enc_string(&mut out, self.current_course_id.as_str());
        out.append(",\"course_version_seen\":");
        push_enc_string(&mut out, self.course_version_seen.as_str());
        out.append(",\"current_quest_id\":");
        push_enc_string(&mut out, self.current_quest_id.as_str());
        out.append(",\"current_chapter_index\":");
        push_u64(&mut out, self.current_chapter_index as u64);
        out.append(",\"current_task_index\":");
        push_u64(&mut out, self.current_task_index as u64);
        out.append(",\"flags\":");
        push_flags(&mut out, &self.flags);
        out.append(",\"variables\":");
        push_vars(&mut out, &self.variables);
        out.append(",\"is_finished\":");
        push_bool(&mut out, self.is_finished);
        out.push('}');
        proof {
            assert(out@ =~= enc_state(*self));
        }
        out
    }
}

} // verus!
