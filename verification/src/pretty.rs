//! Human-readable rendering for `--pretty`.

use vstd::prelude::*;
use vstd::string::StringExecFns;

use crate::cli::members::MemberSummary;
use crate::message::Message;
use crate::message::record::chrono_rfc3339;
use crate::text::{chars_of, decimal, decimal_string, string_from_chars};

verus! {

/// The body with every line after the first indented by four spaces: each
/// line feed becomes a line feed followed by four spaces.
pub open spec fn indent_continuations(body: Seq<char>) -> Seq<char>
    decreases body.len(),
{
    if body.len() == 0 {
        Seq::empty()
    } else {
        indent_continuations(body.drop_last()) + if body.last() == '\n' {
            seq!['\n', ' ', ' ', ' ', ' ']
        } else {
            seq![body.last()]
        }
    }
}

/// `[<ts>] <from>: <first line>`, then each further line of the body indented
/// by four spaces.
pub open spec fn pretty_text(ts: Seq<char>, from: Seq<char>, body: Seq<char>) -> Seq<char> {
    seq!['['] + ts + seq![']', ' '] + from + seq![':', ' '] + indent_continuations(body)
}

/// How many times `c` occurs in `s`.
pub open spec fn occurrences(s: Seq<char>, c: char) -> nat
    decreases s.len(),
{
    if s.len() == 0 {
        0
    } else {
        occurrences(s.drop_last(), c) + if s.last() == c {
            1nat
        } else {
            0nat
        }
    }
}

/// Occurrences add up over a concatenation.
pub proof fn lemma_occurrences_concat(x: Seq<char>, y: Seq<char>, c: char)
    ensures
        occurrences(x + y, c) == occurrences(x, c) + occurrences(y, c),
    decreases y.len(),
{
    if y.len() == 0 {
        assert(x + y =~= x);
    } else {
        assert((x + y).drop_last() =~= x + y.drop_last());
        assert((x + y).last() == y.last());
        lemma_occurrences_concat(x, y.drop_last(), c);
    }
}

/// The indented body is four characters longer per line feed and has the
/// same line feeds.
proof fn lemma_indent_length(body: Seq<char>)
    ensures
        indent_continuations(body).len() == body.len() + 4 * occurrences(body, '\n'),
        occurrences(indent_continuations(body), '\n') == occurrences(body, '\n'),
    decreases body.len(),
{
    if body.len() > 0 {
        let init = body.drop_last();
        let tail = if body.last() == '\n' {
            seq!['\n', ' ', ' ', ' ', ' ']
        } else {
            seq![body.last()]
        };
        lemma_indent_length(init);
        lemma_occurrences_concat(indent_continuations(init), tail, '\n');
        assert(occurrences(tail, '\n') == if body.last() == '\n' {
            1nat
        } else {
            0nat
        }) by {
            reveal_with_fuel(occurrences, 6);
        }
    }
}

/// Where the `i`-th character of the body lands in the indented body, and
/// what follows a line feed there.
proof fn lemma_indent_at(body: Seq<char>, i: int)
    requires
        0 <= i < body.len(),
    ensures
        ({
            let out = indent_continuations(body);
            let p = i + 4 * occurrences(body.take(i), '\n');
            &&& out[p] == body[i]
            &&& body[i] == '\n' ==> out[p + 1] == ' ' && out[p + 2] == ' ' && out[p + 3] == ' '
                && out[p + 4] == ' '
        }),
    decreases body.len(),
{
    let init = body.drop_last();
    let prev = indent_continuations(init);
    let tail = if body.last() == '\n' {
        seq!['\n', ' ', ' ', ' ', ' ']
    } else {
        seq![body.last()]
    };
    let out = indent_continuations(body);
    assert(out == prev + tail);
    lemma_indent_length(init);
    if i == init.len() {
        assert(body.take(i) =~= init);
    } else {
        assert(body.take(i) =~= init.take(i));
        assert(init[i] == body[i]);
        lemma_indent_at(init, i);
        lemma_indent_position_bound(init, i);
    }
}

/// The body's lines are kept one for one: the indented body has exactly as
/// many line feeds as the body and four more characters per line feed; the
/// character at position `i` of the body stands at `i` plus four for each
/// line feed before it; and each line feed of the body, blank lines included,
/// is followed by four spaces.
pub proof fn lemma_indent_keeps_lines(body: Seq<char>)
    ensures
        indent_continuations(body).len() == body.len() + 4 * occurrences(body, '\n'),
        occurrences(indent_continuations(body), '\n') == occurrences(body, '\n'),
        forall|i: int|
            #![trigger body[i]]
            0 <= i < body.len() ==> indent_continuations(body)[i + 4 * occurrences(
                body.take(i),
                '\n',
            )] == body[i],
        forall|i: int, d: int|
            #![trigger body[i], indent_continuations(body)[i + 4 * occurrences(body.take(i), '\n') + d]]
            0 <= i < body.len() && body[i] == '\n' && 1 <= d <= 4 ==> indent_continuations(
                body,
            )[i + 4 * occurrences(body.take(i), '\n') + d] == ' ',
{
    lemma_indent_length(body);
    assert forall|i: int| #![trigger body[i]] 0 <= i < body.len() implies indent_continuations(
        body,
    )[i + 4 * occurrences(body.take(i), '\n')] == body[i] by {
        lemma_indent_at(body, i);
    }
    assert forall|i: int, d: int|
        #![trigger body[i], indent_continuations(body)[i + 4 * occurrences(body.take(i), '\n') + d]]
        0 <= i < body.len() && body[i] == '\n' && 1 <= d <= 4 implies indent_continuations(
        body,
    )[i + 4 * occurrences(body.take(i), '\n') + d] == ' ' by {
        lemma_indent_at(body, i);
    }
}

/// In the indented body, the place of the `i`-th character of the body,
/// and of the four spaces after it when it is a line feed, lies inside the
/// result.
proof fn lemma_indent_position_bound(body: Seq<char>, i: int)
    requires
        0 <= i < body.len(),
    ensures
        i + 4 * occurrences(body.take(i), '\n') + (if body[i] == '\n' {
            4int
        } else {
            0int
        }) < body.len() + 4 * occurrences(body, '\n'),
    decreases body.len(),
{
    let init = body.drop_last();
    if i == init.len() {
        assert(body.take(i) =~= init);
    } else {
        assert(body.take(i) =~= init.take(i));
        assert(init[i] == body[i]);
        lemma_indent_position_bound(init, i);
    }
}

/// A rendered message has as many line feeds as its timestamp, sender and
/// body together: the body's lines, blank ones included, are all kept.
pub proof fn lemma_pretty_text_line_feeds(ts: Seq<char>, from: Seq<char>, body: Seq<char>)
    ensures
        occurrences(pretty_text(ts, from, body), '\n') == occurrences(ts, '\n') + occurrences(
            from,
            '\n',
        ) + occurrences(body, '\n'),
        pretty_text(ts, from, body).len() == ts.len() + from.len() + 5 + body.len() + 4
            * occurrences(body, '\n'),
{
    let nl = '\n';
    let a = seq!['['];
    let b = seq![']', ' '];
    let c = seq![':', ' '];
    lemma_indent_keeps_lines(body);
    assert(occurrences(a, nl) == 0 && occurrences(b, nl) == 0 && occurrences(c, nl) == 0) by {
        reveal_with_fuel(occurrences, 3);
    }
    lemma_occurrences_concat(a, ts, nl);
    lemma_occurrences_concat(a + ts, b, nl);
    lemma_occurrences_concat(a + ts + b, from, nl);
    lemma_occurrences_concat(a + ts + b + from, c, nl);
    lemma_occurrences_concat(a + ts + b + from + c, indent_continuations(body), nl);
}

/// `<from>  (<count> msg|msgs, last <last_ts>)`.
pub open spec fn member_text(from: Seq<char>, count: nat, last_ts: Seq<char>) -> Seq<char> {
    from + "  ("@ + decimal(count) + " "@ + (if count == 1 {
        "msg"@
    } else {
        "msgs"@
    }) + ", last "@ + last_ts + ")"@
}

/// Renders a message for a human reader.
pub fn pretty_format(msg: &Message) -> (r: String)
    ensures
        r@ == pretty_text(chrono_rfc3339(msg.ts@.0, msg.ts@.1), msg.from@, msg.body@),
{
    let ts = msg.ts.to_rfc3339();
    let mut out: Vec<char> = Vec::new();
    out.push('[');
    let tc = chars_of(ts.as_str());
    let mut k: usize = 0;
    while k < tc.len()
        invariant
            k <= tc.len(),
            out@ == seq!['['] + tc@.take(k as int),
        decreases tc.len() - k,
    {
        out.push(tc[k]);
        assert(tc@.take(k + 1) =~= tc@.take(k as int).push(tc@[k as int]));
        k = k + 1;
    }
    assert(tc@.take(k as int) =~= tc@);
    out.push(']');
    out.push(' ');
    let fc = chars_of(msg.from.as_str());
    let ghost head = out@;
    let mut k: usize = 0;
    while k < fc.len()
        invariant
            k <= fc.len(),
            out@ == head + fc@.take(k as int),
        decreases fc.len() - k,
    {
        out.push(fc[k]);
        assert(fc@.take(k + 1) =~= fc@.take(k as int).push(fc@[k as int]));
        k = k + 1;
    }
    assert(fc@.take(k as int) =~= fc@);
    out.push(':');
    out.push(' ');
    let bc = chars_of(msg.body.as_str());
    let ghost prefix = out@;
    let mut k: usize = 0;
    while k < bc.len()
        invariant
            k <= bc.len(),
            out@ == prefix + indent_continuations(bc@.take(k as int)),
        decreases bc.len() - k,
    {
        let c = bc[k];
        let ghost before = out@;
        if c == '\n' {
            out.push('\n');
            out.push(' ');
            out.push(' ');
            out.push(' ');
            out.push(' ');
        } else {
            out.push(c);
        }
        proof {
            let t = bc@.take(k + 1);
            assert(t.drop_last() =~= bc@.take(k as int));
            assert(t.last() == c);
            if c == '\n' {
                assert(out@ =~= before + seq!['\n', ' ', ' ', ' ', ' ']);
            } else {
                assert(out@ =~= before + seq![c]);
            }
        }
        k = k + 1;
    }
    assert(bc@.take(k as int) =~= bc@);
    assert(out@ =~= pretty_text(ts@, msg.from@, msg.body@));
    string_from_chars(out.as_slice())
}

/// Renders a member summary for a human reader.
pub fn pretty_member(m: &MemberSummary) -> (r: String)
    ensures
        r@ == member_text(m.from@, m.count as nat, chrono_rfc3339(m.last_ts@.0, m.last_ts@.1)),
{
    let mut out = String::from_str(m.from.as_str());
    out.append("  (");
    let count = decimal_string(m.count);
    out.append(count.as_str());
    out.append(" ");
    if m.count == 1 {
        out.append("msg");
    } else {
        out.append("msgs");
    }
    out.append(", last ");
    let ts = m.last_ts.to_rfc3339();
    out.append(ts.as_str());
    out.append(")");
    out
}

} // verus!
