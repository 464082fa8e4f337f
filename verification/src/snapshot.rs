//! Snapshot persistence format: one line per target, holding the
//! escaped target name and its three counters, tab-separated, in sorted
//! name order. Encoding and decoding are exact inverses, so historical
//! baselines reload unchanged across process restarts; the caller does
//! the file reads and writes and hands the text through.
use vstd::prelude::*;

use crate::status::{sorted_by_name, FuzzingStatus, TargetStatus};
use crate::text::{all_digits, dec_str, is_digit_char, spec_parse_u32};

verus! {

/// How one character of a name is written: backslash, newline and tab
/// are escaped so that a name never breaks the line or field structure.
pub open spec fn escape_char(c: char) -> Seq<char> {
    if c == '\\' {
        seq!['\\', '\\']
    } else if c == '\n' {
        seq!['\\', 'n']
    } else if c == '\t' {
        seq!['\\', 't']
    } else {
        seq![c]
    }
}

/// How a whole name is written.
pub open spec fn escape_str(s: Seq<char>) -> Seq<char>
    decreases s.len(),
{
    if s.len() == 0 {
        Seq::empty()
    } else {
        escape_char(s[0]) + escape_str(s.drop_first())
    }
}

/// One line: escaped name, then total, covered and errors in decimal,
/// tab-separated, closed by a newline.
pub open spec fn encode_entry(name: Seq<char>, ts: TargetStatus) -> Seq<char> {
    escape_str(name) + seq!['\t'] + dec_str(ts.total as nat) + seq!['\t'] + dec_str(
        ts.covered as nat,
    ) + seq!['\t'] + dec_str(ts.errors as nat) + seq!['\n']
}

/// The whole snapshot text, entry by entry.
pub open spec fn spec_encode(es: Seq<(Seq<char>, TargetStatus)>) -> Seq<char>
    decreases es.len(),
{
    if es.len() == 0 {
        Seq::empty()
    } else {
        encode_entry(es[0].0, es[0].1) + spec_encode(es.drop_first())
    }
}

/// Reads an escaped name up to its closing tab; yields the name and what
/// follows the tab. Fails on a raw newline, a dangling or unknown escape,
/// or a missing tab.
pub open spec fn unescape_take_name(s: Seq<char>) -> Option<(Seq<char>, Seq<char>)>
    decreases s.len(),
{
    if s.len() == 0 {
        None
    } else if s[0] == '\t' {
        Some((Seq::empty(), s.drop_first()))
    } else if s[0] == '\n' {
        None
    } else if s[0] == '\\' {
        if s.len() >= 2 && (s[1] == '\\' || s[1] == 'n' || s[1] == 't') {
            match unescape_take_name(s.skip(2)) {
                Some((n, r)) => Some((seq![unescape_code(s[1])] + n, r)),
                None => None,
            }
        } else {
            None
        }
    } else {
        match unescape_take_name(s.drop_first()) {
            Some((n, r)) => Some((seq![s[0]] + n, r)),
            None => None,
        }
    }
}

/// The character an escape code stands for.
pub open spec fn unescape_code(c: char) -> char {
    if c == 'n' {
        '\n'
    } else if c == 't' {
        '\t'
    } else {
        '\\'
    }
}

/// Reads a field up to the delimiter; yields the field and what follows
/// the delimiter. Fails when the delimiter never comes.
pub open spec fn take_until(s: Seq<char>, d: char) -> Option<(Seq<char>, Seq<char>)>
    decreases s.len(),
{
    if s.len() == 0 {
        None
    } else if s[0] == d {
        Some((Seq::empty(), s.drop_first()))
    } else {
        match take_until(s.drop_first(), d) {
            Some((f, r)) => Some((seq![s[0]] + f, r)),
            None => None,
        }
    }
}

/// Reads one line: a name and three counters.
pub open spec fn spec_decode_entry(s: Seq<char>) -> Option<
    ((Seq<char>, TargetStatus), Seq<char>),
> {
    match unescape_take_name(s) {
        None => None,
        Some((name, r1)) => match take_until(r1, '\t') {
            None => None,
            Some((f1, r2)) => match take_until(r2, '\t') {
                None => None,
                Some((f2, r3)) => match take_until(r3, '\n') {
                    None => None,
                    Some((f3, r4)) => match (
                        spec_parse_u32(f1),
                        spec_parse_u32(f2),
                        spec_parse_u32(f3),
                    ) {
                        (Some(total), Some(covered), Some(errors)) => Some(
                            ((name, TargetStatus { total, covered, errors }), r4),
                        ),
                        _ => None,
                    },
                },
            },
        },
    }
}

/// Reads the whole snapshot text back into entries, line by line.
pub open spec fn spec_decode(s: Seq<char>) -> Option<Seq<(Seq<char>, TargetStatus)>>
    decreases s.len(),
{
    if s.len() == 0 {
        Some(Seq::empty())
    } else {
        match spec_decode_entry(s) {
            None => None,
            Some((e, rest)) => if rest.len() < s.len() {
                match spec_decode(rest) {
                    None => None,
                    Some(es) => Some(seq![e] + es),
                }
            } else {
                None
            },
        }
    }
}

/// Unescaping undoes escaping, whatever follows the closing tab.
proof fn lemma_unescape_of_escape(name: Seq<char>, rest: Seq<char>)
    ensures
        unescape_take_name(escape_str(name) + seq!['\t'] + rest) == Some((name, rest)),
    decreases name.len(),
{
    let s = escape_str(name) + seq!['\t'] + rest;
    if name.len() == 0 {
        assert(escape_str(name) =~= Seq::<char>::empty());
        assert(s =~= seq!['\t'] + rest);
        assert(s[0] == '\t');
        assert(s.drop_first() =~= rest);
        assert(Seq::<char>::empty() + rest =~= rest);
    } else {
        let c = name[0];
        let tail = name.drop_first();
        lemma_unescape_of_escape(tail, rest);
        let inner = escape_str(tail) + seq!['\t'] + rest;
        if c == '\\' || c == '\n' || c == '\t' {
            let code: char = if c == '\n' {
                'n'
            } else if c == '\t' {
                't'
            } else {
                '\\'
            };
            assert(escape_char(c) =~= seq!['\\', code]);
            assert(s =~= seq!['\\', code] + inner);
            assert(s[0] == '\\' && s[1] == code);
            assert(s.skip(2) =~= inner);
            assert(unescape_code(code) == c);
            assert(seq![c] + tail =~= name);
        } else {
            assert(escape_char(c) =~= seq![c]);
            assert(s =~= seq![c] + inner);
            assert(s[0] == c);
            assert(s.drop_first() =~= inner);
            assert(seq![c] + tail =~= name);
        }
    }
}

/// Taking a field undoes writing one, when the field itself is free of
/// the delimiter.
proof fn lemma_take_until_of(field: Seq<char>, d: char, rest: Seq<char>)
    requires
        forall|i: int| 0 <= i < field.len() ==> field[i] != d,
    ensures
        take_until(field + seq![d] + rest, d) == Some((field, rest)),
    decreases field.len(),
{
    let s = field + seq![d] + rest;
    if field.len() == 0 {
        assert(s =~= seq![d] + rest);
        assert(s[0] == d);
        assert(s.drop_first() =~= rest);
        assert(Seq::<char>::empty() + rest =~= rest);
    } else {
        let tail = field.drop_first();
        lemma_take_until_of(tail, d, rest);
        assert(s[0] == field[0]);
        assert(s[0] != d);
        assert(s.drop_first() =~= tail + seq![d] + rest);
        assert(seq![field[0]] + tail =~= field);
    }
}

/// Digits are neither tabs nor newlines.
proof fn lemma_digits_not_delim(s: Seq<char>)
    requires
        all_digits(s),
    ensures
        forall|i: int| 0 <= i < s.len() ==> s[i] != '\t',
        forall|i: int| 0 <= i < s.len() ==> s[i] != '\n',
{
    assert forall|i: int| 0 <= i < s.len() implies s[i] != '\t' && s[i] != '\n' by {
        assert(is_digit_char(s[i]));
    }
}

/// One encoded line reads back as the entry it was written from.
proof fn lemma_decode_entry_of_encode(name: Seq<char>, ts: TargetStatus, rest: Seq<char>)
    ensures
        spec_decode_entry(encode_entry(name, ts) + rest) == Some((
            (name, ts),
            rest,
        )),
        rest.len() < (encode_entry(name, ts) + rest).len(),
{
    let t_str = dec_str(ts.total as nat);
    let c_str = dec_str(ts.covered as nat);
    let e_str = dec_str(ts.errors as nat);
    crate::text::lemma_dec_str_round_trip(ts.total as nat);
    crate::text::lemma_dec_str_round_trip(ts.covered as nat);
    crate::text::lemma_dec_str_round_trip(ts.errors as nat);
    lemma_digits_not_delim(t_str);
    lemma_digits_not_delim(c_str);
    lemma_digits_not_delim(e_str);
    let s = encode_entry(name, ts) + rest;
    let after_name = t_str + seq!['\t'] + (c_str + seq!['\t'] + (e_str + seq!['\n'] + rest));
    assert(s =~= escape_str(name) + seq!['\t'] + after_name);
    lemma_unescape_of_escape(name, after_name);
    let after_total = c_str + seq!['\t'] + (e_str + seq!['\n'] + rest);
    lemma_take_until_of(t_str, '\t', after_total);
    let after_covered = e_str + seq!['\n'] + rest;
    lemma_take_until_of(c_str, '\t', after_covered);
    lemma_take_until_of(e_str, '\n', rest);
    assert(spec_parse_u32(t_str) == Some(ts.total));
    assert(spec_parse_u32(c_str) == Some(ts.covered));
    assert(spec_parse_u32(e_str) == Some(ts.errors));
}

/// Escaping one more character appends its escape.
proof fn lemma_escape_push(s: Seq<char>, c: char)
    ensures
        escape_str(s.push(c)) == escape_str(s) + escape_char(c),
    decreases s.len(),
{
    if s.len() == 0 {
        assert(s.push(c)[0] == c);
        assert(s.push(c).drop_first() =~= Seq::<char>::empty());
        assert(escape_str(Seq::<char>::empty()) =~= Seq::<char>::empty());
        assert(escape_str(s.push(c)) == escape_char(c) + escape_str(Seq::<char>::empty()));
        assert(escape_str(s.push(c)) =~= escape_str(s) + escape_char(c));
    } else {
        lemma_escape_push(s.drop_first(), c);
        assert(s.push(c)[0] == s[0]);
        assert(s.push(c).drop_first() =~= s.drop_first().push(c));
        assert(escape_str(s.push(c)) == escape_char(s[0]) + escape_str(s.drop_first().push(c)));
        assert(escape_str(s.drop_first().push(c)) == escape_str(s.drop_first()) + escape_char(c));
        assert(escape_char(s[0]) + (escape_str(s.drop_first()) + escape_char(c)) =~= (escape_char(
            s[0],
        ) + escape_str(s.drop_first())) + escape_char(c));
        assert(escape_str(s) == escape_char(s[0]) + escape_str(s.drop_first()));
    }
}

/// Encoding one more entry appends its line.
proof fn lemma_encode_push(es: Seq<(Seq<char>, TargetStatus)>, e: (Seq<char>, TargetStatus))
    ensures
        spec_encode(es.push(e)) == spec_encode(es) + encode_entry(e.0, e.1),
    decreases es.len(),
{
    if es.len() == 0 {
        assert(es.push(e)[0] == e);
        assert(es.push(e).drop_first() =~= Seq::<(Seq<char>, TargetStatus)>::empty());
        assert(spec_encode(Seq::<(Seq<char>, TargetStatus)>::empty()) =~= Seq::<char>::empty());
        assert(spec_encode(es.push(e)) == encode_entry(e.0, e.1) + spec_encode(
            Seq::<(Seq<char>, TargetStatus)>::empty(),
        ));
        assert(spec_encode(es.push(e)) =~= spec_encode(es) + encode_entry(e.0, e.1));
    } else {
        lemma_encode_push(es.drop_first(), e);
        assert(es.push(e)[0] == es[0]);
        assert(es.push(e).drop_first() =~= es.drop_first().push(e));
        assert(spec_encode(es.push(e)) == encode_entry(es[0].0, es[0].1) + spec_encode(
            es.drop_first().push(e),
        ));
        assert(spec_encode(es.drop_first().push(e)) == spec_encode(es.drop_first()) + encode_entry(
            e.0,
            e.1,
        ));
        assert(encode_entry(es[0].0, es[0].1) + (spec_encode(es.drop_first()) + encode_entry(
            e.0,
            e.1,
        )) =~= (encode_entry(es[0].0, es[0].1) + spec_encode(es.drop_first())) + encode_entry(
            e.0,
            e.1,
        ));
        assert(spec_encode(es) == encode_entry(es[0].0, es[0].1) + spec_encode(es.drop_first()));
    }
}

/// Appends the escaped form of `name`.
fn escape_append(out: &mut String, name: &str)
    ensures
        final(out)@ == old(out)@ + escape_str(name@),
{
    let len = name.unicode_len();
    let mut k: usize = 0;
    proof {
        assert(name@.take(0) =~= Seq::<char>::empty());
        assert(old(out)@ + escape_str(name@.take(0)) =~= old(out)@);
    }
    while k < len
        invariant
            0 <= k <= len,
            len == name@.len(),
            out@ == old(out)@ + escape_str(name@.take(k as int)),
        decreases len - k,
    {
        let c = name.get_char(k);
        if c == '\\' {
            out.append("\\\\");
            proof {
                reveal_strlit("\\\\");
                assert("\\\\"@ =~= escape_char(c));
            }
        } else if c == '\n' {
            out.append("\\n");
            proof {
                reveal_strlit("\\n");
                assert("\\n"@ =~= escape_char(c));
            }
        } else if c == '\t' {
            out.append("\\t");
            proof {
                reveal_strlit("\\t");
                assert("\\t"@ =~= escape_char(c));
            }
        } else {
            let piece = name.substring_char(k, k + 1);
            proof {
                assert(piece@ =~= seq![name@[k as int]]);
                assert(piece@ =~= escape_char(c));
            }
            out.append(piece);
        }
        proof {
            lemma_escape_push(name@.take(k as int), c);
            assert(name@.take(k + 1) =~= name@.take(k as int).push(c));
        }
        k = k + 1;
    }
    proof {
        assert(name@.take(len as int) =~= name@);
    }
}

/// Appends one encoded line.
fn append_entry(out: &mut String, name: &str, ts: TargetStatus)
    ensures
        final(out)@ == old(out)@ + encode_entry(name@, ts),
{
    escape_append(out, name);
    out.append("\t");
    let total = crate::text::u32_to_string(ts.total);
    out.append(total.as_str());
    out.append("\t");
    let covered = crate::text::u32_to_string(ts.covered);
    out.append(covered.as_str());
    out.append("\t");
    let errors = crate::text::u32_to_string(ts.errors);
    out.append(errors.as_str());
    out.append("\n");
    proof {
        reveal_strlit("\t");
        reveal_strlit("\n");
        assert("\t"@ =~= seq!['\t']);
        assert("\n"@ =~= seq!['\n']);
        assert(out@ =~= old(out)@ + encode_entry(name@, ts));
    }
}

/// Renders a whole snapshot in persistence form: one line per target,
/// in the snapshot's sorted order.
pub fn encode_status(status: &FuzzingStatus) -> (r: String)
    ensures
        r@ == spec_encode(status.entries_seq()),
{
    let mut out = String::new();
    let n = status.len();
    let mut i: usize = 0;
    proof {
        assert(status.entries_seq().take(0) =~= Seq::<(Seq<char>, TargetStatus)>::empty());
        assert(out@ =~= spec_encode(status.entries_seq().take(0)));
    }
    while i < n
        invariant
            0 <= i <= n,
            n == status.entries_seq().len(),
            out@ == spec_encode(status.entries_seq().take(i as int)),
        decreases n - i,
    {
        let name = status.name_at(i).clone();
        let ts = status.status_at(i);
        append_entry(&mut out, name.as_str(), ts);
        proof {
            lemma_encode_push(status.entries_seq().take(i as int), status.entries_seq()[i as int]);
            assert(status.entries_seq().take(i + 1) =~= status.entries_seq().take(i as int).push(
                status.entries_seq()[i as int],
            ));
        }
        i = i + 1;
    }
    proof {
        assert(status.entries_seq().take(n as int) =~= status.entries_seq());
    }
    out
}

/// A name already read, prepended to the rest of a partial parse.
pub open spec fn prepend_name(
    p: Seq<char>,
    o: Option<(Seq<char>, Seq<char>)>,
) -> Option<(Seq<char>, Seq<char>)> {
    match o {
        Some((n, r)) => Some((p + n, r)),
        None => None,
    }
}

/// Reads an escaped name starting at `from`, up to its closing tab.
fn take_name(s: &str, from: usize) -> (r: Option<(String, usize)>)
    requires
        from <= s@.len(),
    ensures
        match r {
            Some((name, j)) => from < j <= s@.len() && unescape_take_name(s@.skip(from as int))
                == Some((name@, s@.skip(j as int))),
            None => unescape_take_name(s@.skip(from as int)) == None::<(Seq<char>, Seq<char>)>,
        },
{
    let len = s.unicode_len();
    let mut k: usize = from;
    let mut acc = String::new();
    proof {
        assert(acc@ + Seq::<char>::empty() =~= Seq::<char>::empty());
    }
    loop
        invariant
            from <= k <= len,
            len == s@.len(),
            unescape_take_name(s@.skip(from as int)) == prepend_name(
                acc@,
                unescape_take_name(s@.skip(k as int)),
            ),
        decreases len - k,
    {
        let ghost pre = acc@;
        let ghost tail = s@.skip(k as int);
        if k >= len {
            assert(tail.len() == 0);
            return None;
        }
        assert(tail[0] == s@[k as int]);
        let c = s.get_char(k);
        if c == '\t' {
            proof {
                assert(tail.drop_first() =~= s@.skip(k + 1));
                assert(pre + Seq::<char>::empty() =~= pre);
            }
            return Some((acc, k + 1));
        }
        if c == '\n' {
            return None;
        }
        if c == '\\' {
            if k + 1 >= len {
                assert(tail.len() < 2);
                return None;
            }
            assert(tail[1] == s@[k + 1]);
            let c2 = s.get_char(k + 1);
            let piece: &str = if c2 == '\\' {
                "\\"
            } else if c2 == 'n' {
                "\n"
            } else if c2 == 't' {
                "\t"
            } else {
                return None;
            };
            proof {
                reveal_strlit("\\");
                reveal_strlit("\n");
                reveal_strlit("\t");
                assert(piece@ =~= seq![unescape_code(s@[k + 1])]);
            }
            acc.append(piece);
            proof {
                assert(tail.skip(2) =~= s@.skip(k + 2));
                assert(pre + (seq![unescape_code(tail[1])] + unescape_take_name(
                    tail.skip(2),
                )->Some_0.0) =~= (pre + seq![unescape_code(tail[1])]) + unescape_take_name(
                    tail.skip(2),
                )->Some_0.0);
            }
            k = k + 2;
        } else {
            let piece = s.substring_char(k, k + 1);
            proof {
                assert(piece@ =~= seq![s@[k as int]]);
            }
            acc.append(piece);
            proof {
                assert(tail.drop_first() =~= s@.skip(k + 1));
                assert(pre + (seq![tail[0]] + unescape_take_name(
                    tail.drop_first(),
                )->Some_0.0) =~= (pre + seq![tail[0]]) + unescape_take_name(
                    tail.drop_first(),
                )->Some_0.0);
            }
            k = k + 1;
        }
    }
}

/// Reads a field starting at `from`, up to the delimiter `d`.
fn take_field(s: &str, from: usize, d: char) -> (r: Option<(String, usize)>)
    requires
        from <= s@.len(),
    ensures
        match r {
            Some((f, j)) => from < j <= s@.len() && take_until(s@.skip(from as int), d) == Some(
                (f@, s@.skip(j as int)),
            ),
            None => take_until(s@.skip(from as int), d) == None::<(Seq<char>, Seq<char>)>,
        },
{
    let len = s.unicode_len();
    let mut k: usize = from;
    let mut acc = String::new();
    proof {
        assert(acc@ + Seq::<char>::empty() =~= Seq::<char>::empty());
    }
    loop
        invariant
            from <= k <= len,
            len == s@.len(),
            take_until(s@.skip(from as int), d) == prepend_name(
                acc@,
                take_until(s@.skip(k as int), d),
            ),
        decreases len - k,
    {
        let ghost pre = acc@;
        let ghost tail = s@.skip(k as int);
        if k >= len {
            assert(tail.len() == 0);
            return None;
        }
        assert(tail[0] == s@[k as int]);
        let c = s.get_char(k);
        if c == d {
            proof {
                assert(tail.drop_first() =~= s@.skip(k + 1));
                assert(pre + Seq::<char>::empty() =~= pre);
            }
            return Some((acc, k + 1));
        }
        let piece = s.substring_char(k, k + 1);
        proof {
            assert(piece@ =~= seq![s@[k as int]]);
        }
        acc.append(piece);
        proof {
            assert(tail.drop_first() =~= s@.skip(k + 1));
            assert(pre + (seq![tail[0]] + take_until(tail.drop_first(), d)->Some_0.0) =~= (pre
                + seq![tail[0]]) + take_until(tail.drop_first(), d)->Some_0.0);
        }
        k = k + 1;
    }
}

/// Entries already read, prepended to the rest of a partial parse.
pub open spec fn prepend_entries(
    p: Seq<(Seq<char>, TargetStatus)>,
    o: Option<Seq<(Seq<char>, TargetStatus)>>,
) -> Option<Seq<(Seq<char>, TargetStatus)>> {
    match o {
        Some(es) => Some(p + es),
        None => None,
    }
}

/// The views of owned entries.
pub open spec fn view_entries(v: Seq<(String, TargetStatus)>) -> Seq<(Seq<char>, TargetStatus)> {
    v.map_values(|e: (String, TargetStatus)| (e.0@, e.1))
}

/// Appending an entry above the rest keeps the sorted order.
proof fn lemma_sorted_push(s: Seq<(Seq<char>, TargetStatus)>, e: (Seq<char>, TargetStatus))
    requires
        sorted_by_name(s),
        s.len() > 0 ==> crate::text::str_lt(s.last().0, e.0),
    ensures
        sorted_by_name(s.push(e)),
{
    let s2 = s.push(e);
    assert forall|i: int, j: int| 0 <= i < j < s2.len() implies crate::text::str_lt(
        (#[trigger] s2[i]).0,
        (#[trigger] s2[j]).0,
    ) by {
        if j < s.len() {
            assert(s2[i] == s[i] && s2[j] == s[j]);
        } else {
            assert(s2[j] == e);
            assert(s2[i] == s[i]);
            if i < s.len() - 1 {
                assert(crate::text::str_lt(s[i].0, s.last().0));
                crate::text::lemma_str_lt_trans(s[i].0, s.last().0, e.0);
            }
        }
    }
}

/// Reads a snapshot back from persistence form. Fails on any line that
/// does not parse, and on entries out of sorted order, so that a loaded
/// snapshot is always well-formed.
pub fn decode_status(s: &str) -> (r: Option<FuzzingStatus>)
    ensures
        match r {
            Some(fs) => fs.wf() && spec_decode(s@) == Some(fs.entries_seq()),
            None => match spec_decode(s@) {
                Some(es) => !sorted_by_name(es),
                None => true,
            },
        },
{
    let len = s.unicode_len();
    let mut i: usize = 0;
    let mut entries: Vec<(String, TargetStatus)> = Vec::new();
    proof {
        assert(view_entries(entries@) =~= Seq::<(Seq<char>, TargetStatus)>::empty());
        assert(s@.skip(0) =~= s@);
        if spec_decode(s@) is Some {
            assert(view_entries(entries@) + spec_decode(s@)->Some_0 =~= spec_decode(s@)->Some_0);
        }
    }
    while i < len
        invariant
            0 <= i <= len,
            len == s@.len(),
            sorted_by_name(view_entries(entries@)),
            spec_decode(s@) == prepend_entries(view_entries(entries@), spec_decode(s@.skip(i as int))),
        decreases len - i,
    {
        let ghost done = view_entries(entries@);
        let ghost tail = s@.skip(i as int);
        assert(tail.len() > 0);
        let parsed_name = match take_name(s, i) {
            Some(p) => p,
            None => {
                return None;
            },
        };
        let (name, j1) = parsed_name;
        let f1 = match take_field(s, j1, '\t') {
            Some(p) => p,
            None => {
                return None;
            },
        };
        let (tf, j2) = f1;
        let f2 = match take_field(s, j2, '\t') {
            Some(p) => p,
            None => {
                return None;
            },
        };
        let (cf, j3) = f2;
        let f3 = match take_field(s, j3, '\n') {
            Some(p) => p,
            None => {
                return None;
            },
        };
        let (ef, j4) = f3;
        let total = match crate::text::parse_u32(tf.as_str()) {
            Some(v) => v,
            None => {
                return None;
            },
        };
        let covered = match crate::text::parse_u32(cf.as_str()) {
            Some(v) => v,
            None => {
                return None;
            },
        };
        let errors = match crate::text::parse_u32(ef.as_str()) {
            Some(v) => v,
            None => {
                return None;
            },
        };
        let ts = TargetStatus { total, covered, errors };
        proof {
            assert(spec_decode_entry(tail) == Some(((name@, ts), s@.skip(j4 as int))));
            assert(s@.skip(j4 as int).len() < tail.len());
        }
        let n_done = entries.len();
        if n_done > 0 {
            let sorted_ok = crate::text::str_is_lt(entries[n_done - 1].0.as_str(), name.as_str());
            if !sorted_ok {
                proof {
                    if spec_decode(s@) is Some {
                        let es_total = spec_decode(s@)->Some_0;
                        let es_rest = spec_decode(s@.skip(i as int))->Some_0;
                        assert(es_total == done + es_rest);
                        assert(es_rest[0] == (name@, ts));
                        let b = done.len() as int;
                        assert(es_total[b - 1] == done[b - 1]);
                        assert(es_total[b] == es_rest[0]);
                        assert(done[b - 1].0 == view_entries(entries@)[b - 1].0);
                        assert(!crate::text::str_lt(es_total[b - 1].0, es_total[b].0));
                    }
                }
                return None;
            }
        }
        proof {
            lemma_sorted_push(done, (name@, ts));
            assert(view_entries(entries@.push((name, ts))) =~= done.push((name@, ts)));
            if spec_decode(s@.skip(j4 as int)) is Some {
                assert(done + (seq![(name@, ts)] + spec_decode(s@.skip(j4 as int))->Some_0)
                    =~= done.push((name@, ts)) + spec_decode(s@.skip(j4 as int))->Some_0);
            }
        }
        entries.push((name, ts));
        i = j4;
    }
    proof {
        assert(s@.skip(len as int).len() == 0);
        assert(spec_decode(s@.skip(len as int)) == Some(Seq::<(Seq<char>, TargetStatus)>::empty()));
        assert(view_entries(entries@) + Seq::<(Seq<char>, TargetStatus)>::empty() =~= view_entries(
            entries@,
        ));
    }
    let fs = FuzzingStatus::from_entries(entries);
    Some(fs)
}

/// Round trip: decoding what was encoded gives the entries back, for
/// any snapshot value.
pub proof fn lemma_round_trip(es: Seq<(Seq<char>, TargetStatus)>)
    ensures
        spec_decode(spec_encode(es)) == Some(es),
    decreases es.len(),
{
    if es.len() == 0 {
        assert(spec_encode(es).len() == 0);
    } else {
        let e = es[0];
        let rest_es = es.drop_first();
        lemma_round_trip(rest_es);
        lemma_decode_entry_of_encode(e.0, e.1, spec_encode(rest_es));
        let s = spec_encode(es);
        assert(s == encode_entry(e.0, e.1) + spec_encode(rest_es));
        assert(encode_entry(e.0, e.1).len() > 0);
        assert(s.len() > 0);
        assert(seq![e] + rest_es =~= es);
    }
}

} // verus!
