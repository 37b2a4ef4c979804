//! Reading a channel log back: splitting it into records, the `--since`
//! cursor, and the names of the channels that exist.

use vstd::prelude::*;
use vstd::string::StringExecFns;
use vstd::string::StrSliceExecFns;

use crate::message::Message;
use crate::message::id::{ulid_string, ulid_text};
use crate::storage::writer::{frame, framed_log};
use crate::text::{blank, chars_of, is_blank, unicode_white_space, seq_lt, sort_strings, str_lt, string_from_chars, strings_sorted, views};

verus! {

// ---------------------------------------------------------------------------
// Lines of a log
// ---------------------------------------------------------------------------

/// A line that ended in a line feed loses one carriage return before it.
pub open spec fn strip_cr(line: Seq<char>) -> Seq<char> {
    if line.len() > 0 && line.last() == '\r' {
        line.drop_last()
    } else {
        line
    }
}

/// The lines of `s`, given that `cur` has been read of the current line: as
/// `BufRead::lines` yields them, without their line feed (or CR LF), and with
/// a last line that lacks a line feed yielded as it stands.
pub open spec fn lines_from(s: Seq<char>, cur: Seq<char>) -> Seq<Seq<char>>
    decreases s.len(),
{
    if s.len() == 0 {
        if cur.len() == 0 {
            Seq::empty()
        } else {
            seq![cur]
        }
    } else if s[0] == '\n' {
        seq![strip_cr(cur)] + lines_from(s.drop_first(), Seq::empty())
    } else {
        lines_from(s.drop_first(), cur.push(s[0]))
    }
}

/// The lines of a log.
pub open spec fn log_lines(s: Seq<char>) -> Seq<Seq<char>> {
    lines_from(s, Seq::empty())
}

/// Lines paired with their line numbers, counted from one.
pub open spec fn numbered(lines: Seq<Seq<char>>) -> Seq<(nat, Seq<char>)> {
    Seq::new(lines.len(), |k: int| ((k + 1) as nat, lines[k]))
}

/// The numbered lines that are records: those that are not blank.
pub open spec fn records_of(lines: Seq<Seq<char>>) -> Seq<(nat, Seq<char>)> {
    numbered(lines).filter(|p: (nat, Seq<char>)| !is_blank(p.1))
}

/// The records of a log: its non-blank lines with their line numbers.
pub open spec fn log_records(s: Seq<char>) -> Seq<(nat, Seq<char>)> {
    records_of(log_lines(s))
}

/// The view of one numbered line.
pub open spec fn line_view(p: (usize, String)) -> (nat, Seq<char>) {
    (p.0 as nat, p.1@)
}

/// A log is well terminated when it is empty or ends in a line feed: the next
/// record appended starts a line of its own.
pub open spec fn well_terminated(s: Seq<char>) -> bool {
    s.len() == 0 || s.last() == '\n'
}

/// A record that reads back as written: no line feed inside and no carriage
/// return at its end.
pub open spec fn single_line(record: Seq<char>) -> bool {
    !record.contains('\n') && !(record.len() > 0 && record.last() == '\r')
}

proof fn lemma_numbered_push(lines: Seq<Seq<char>>, line: Seq<char>)
    ensures
        numbered(lines.push(line)) == numbered(lines).push(((lines.len() + 1) as nat, line)),
{
    assert(numbered(lines.push(line)) =~= numbered(lines).push(((lines.len() + 1) as nat, line)));
}

proof fn lemma_records_push(lines: Seq<Seq<char>>, line: Seq<char>)
    ensures
        records_of(lines.push(line)) == if is_blank(line) {
            records_of(lines)
        } else {
            records_of(lines).push(((lines.len() + 1) as nat, line))
        },
{
    lemma_numbered_push(lines, line);
    let n = numbered(lines.push(line));
    assert(n.drop_last() =~= numbered(lines));
    assert(n.last() == ((lines.len() + 1) as nat, line));
    reveal(Seq::filter);
}

/// A line is skipped only when every one of its characters is whitespace:
/// line `k` of a log, numbered `k + 1`, is among its records exactly when
/// some character of it is not whitespace, whatever its other characters.
pub proof fn lemma_record_iff_not_all_whitespace(s: Seq<char>, k: int)
    requires
        0 <= k < log_lines(s).len(),
    ensures
        log_records(s).contains(((k + 1) as nat, log_lines(s)[k])) <==> exists|j: int|
            0 <= j < log_lines(s)[k].len() && !unicode_white_space(
                #[trigger] log_lines(s)[k][j],
            ),
{
    broadcast use vstd::seq_lib::group_filter_ensures;

    let lines = log_lines(s);
    let line = lines[k];
    let n = numbered(lines);
    assert(n[k] == ((k + 1) as nat, line));
    if exists|j: int| 0 <= j < line.len() && !unicode_white_space(#[trigger] line[j]) {
        let j = choose|j: int| 0 <= j < line.len() && !unicode_white_space(#[trigger] line[j]);
        assert(!unicode_white_space(line[j]));
        assert(!is_blank(line));
        assert(records_of(lines).contains(n[k]));
    } else {
        assert(is_blank(line));
        if records_of(lines).contains(((k + 1) as nat, line)) {
            let i = choose|i: int|
                0 <= i < records_of(lines).len() && records_of(lines)[i] == ((k + 1) as nat, line);
            assert(!is_blank(records_of(lines)[i].1));
        }
    }
}

/// Splits a log into its records: the non-blank lines (those that `trim`
/// does not empty), each with its line number.
pub fn record_lines(content: &str) -> (r: Vec<(usize, String)>)
    ensures
        r@.map_values(|p: (usize, String)| line_view(p)) == log_records(content@),
{
    let cs = chars_of(content);
    let mut out: Vec<(usize, String)> = Vec::new();
    let mut cur: Vec<char> = Vec::new();
    let mut lineno: usize = 0;
    let ghost mut done: Seq<Seq<char>> = Seq::empty();
    let mut i: usize = 0;
    assert(cs@.skip(0) =~= cs@);
    assert(done + lines_from(cs@, cur@) =~= lines_from(cs@, cur@));
    assert(records_of(done) =~= Seq::<(nat, Seq<char>)>::empty());
    assert(out@.map_values(|p: (usize, String)| line_view(p)) =~= Seq::<(nat, Seq<char>)>::empty());
    while i < cs.len()
        invariant
            cs@ == content@,
            i <= cs.len(),
            lineno == done.len(),
            lineno + cur.len() <= i,
            done + lines_from(cs@.skip(i as int), cur@) == log_lines(cs@),
            out@.map_values(|p: (usize, String)| line_view(p)) == records_of(done),
        decreases cs.len() - i,
    {
        let c = cs[i];
        assert(cs@.skip(i as int).drop_first() =~= cs@.skip(i + 1));
        assert(cs@.skip(i as int)[0] == c);
        if c == '\n' {
            let ghost cur_old = cur@;
            if cur.len() > 0 && cur[cur.len() - 1] == '\r' {
                cur.pop();
            }
            let ghost line = cur@;
            proof {
                assert(line =~= strip_cr(cur_old));
                lemma_records_push(done, line);
                assert(lines_from(cs@.skip(i as int), cur_old) == seq![line] + lines_from(
                    cs@.skip(i + 1),
                    Seq::empty(),
                ));
                assert(done + (seq![line] + lines_from(cs@.skip(i + 1), Seq::empty())) =~= done.push(
                    line,
                ) + lines_from(cs@.skip(i + 1), Seq::empty()));
                done = done.push(line);
            }
            if !blank(cur.as_slice()) {
                let text = string_from_chars(cur.as_slice());
                let ghost prev = out@;
                out.push((lineno + 1, text));
                assert(out@.map_values(|p: (usize, String)| line_view(p)) =~= prev.map_values(
                    |p: (usize, String)| line_view(p),
                ).push(((lineno + 1) as nat, line)));
            }
            lineno = lineno + 1;
            cur = Vec::new();
        } else {
            cur.push(c);
        }
        i = i + 1;
    }
    if cur.len() > 0 {
        let ghost line = cur@;
        proof {
            lemma_records_push(done, line);
            assert(cs@.skip(i as int) =~= Seq::<char>::empty());
            assert(done + lines_from(cs@.skip(i as int), cur@) =~= done.push(line));
        }
        if !blank(cur.as_slice()) {
            let text = string_from_chars(cur.as_slice());
            let ghost prev = out@;
            out.push((lineno + 1, text));
            assert(out@.map_values(|p: (usize, String)| line_view(p)) =~= prev.map_values(
                |p: (usize, String)| line_view(p),
            ).push(((lineno + 1) as nat, line)));
        }
    } else {
        proof {
            assert(cs@.skip(i as int) =~= Seq::<char>::empty());
            assert(done + lines_from(cs@.skip(i as int), cur@) =~= done);
        }
    }
    out
}

// ---------------------------------------------------------------------------
// What a read gives back of a write
// ---------------------------------------------------------------------------

proof fn lemma_lines_concat(a: Seq<char>, b: Seq<char>, cur: Seq<char>)
    requires
        a.len() > 0,
        a.last() == '\n',
    ensures
        lines_from(a + b, cur) == lines_from(a, cur) + lines_from(b, Seq::empty()),
    decreases a.len(),
{
    assert((a + b)[0] == a[0]);
    assert((a + b).drop_first() =~= a.drop_first() + b);
    if a.len() == 1 {
        assert(a.drop_first() =~= Seq::<char>::empty());
        assert(a.drop_first() + b =~= b);
        assert(lines_from(a.drop_first(), Seq::empty()) =~= Seq::<Seq<char>>::empty());
        assert(lines_from(a, cur) =~= seq![strip_cr(cur)]);
    } else {
        lemma_lines_concat(a.drop_first(), b, if a[0] == '\n' {
            Seq::empty()
        } else {
            cur.push(a[0])
        });
    }
}

proof fn lemma_lines_single(r: Seq<char>, cur: Seq<char>)
    requires
        !r.contains('\n'),
    ensures
        lines_from(frame(r), cur) == seq![strip_cr(cur + r)],
    decreases r.len(),
{
    if r.len() == 0 {
        assert(cur + r =~= cur);
        assert(frame(r).drop_first() =~= Seq::<char>::empty());
        assert(frame(r)[0] == '\n');
        assert(lines_from(Seq::<char>::empty(), Seq::<char>::empty()) =~= Seq::<Seq<char>>::empty());
        assert(seq![strip_cr(cur)] + Seq::<Seq<char>>::empty() =~= seq![strip_cr(cur)]);
    } else {
        assert(frame(r)[0] == r[0]);
        assert(r[0] != '\n');
        assert(frame(r).drop_first() =~= frame(r.drop_first()));
        if r.drop_first().contains('\n') {
            let k = choose|k: int| 0 <= k < r.drop_first().len() && r.drop_first()[k] == '\n';
            assert(r[k + 1] == '\n');
        }
        lemma_lines_single(r.drop_first(), cur.push(r[0]));
        assert(cur.push(r[0]) + r.drop_first() =~= cur + r);
    }
}

/// Appending a framed record to a well-terminated log adds exactly that
/// record as the log's last line, and leaves the log well terminated.
pub proof fn lemma_append_reads_back(log: Seq<char>, record: Seq<char>)
    requires
        well_terminated(log),
        single_line(record),
    ensures
        log_lines(log + frame(record)) == log_lines(log).push(record),
        well_terminated(log + frame(record)),
        log_records(log + frame(record)) == if is_blank(record) {
            log_records(log)
        } else {
            log_records(log).push(((log_lines(log).len() + 1) as nat, record))
        },
{
    lemma_lines_single(record, Seq::empty());
    assert(Seq::<char>::empty() + record =~= record);
    if log.len() == 0 {
        assert(log + frame(record) =~= frame(record));
        assert(log_lines(log) =~= Seq::<Seq<char>>::empty());
    } else {
        lemma_lines_concat(log, frame(record), Seq::empty());
    }
    assert(log_lines(log + frame(record)) =~= log_lines(log).push(record));
    lemma_records_push(log_lines(log), record);
}

/// A log written by appending records, each on a single line, reads back as
/// exactly those records, in order.
pub proof fn lemma_framed_log_reads_back(records: Seq<Seq<char>>)
    requires
        forall|k: int| 0 <= k < records.len() ==> #[trigger] single_line(records[k]),
    ensures
        log_lines(framed_log(records)) == records,
        well_terminated(framed_log(records)),
    decreases records.len(),
{
    if records.len() == 0 {
        assert(log_lines(Seq::empty()) =~= Seq::<Seq<char>>::empty());
    } else {
        let rest = records.drop_last();
        assert forall|k: int| 0 <= k < rest.len() implies #[trigger] single_line(rest[k]) by {
            assert(rest[k] == records[k]);
        }
        lemma_framed_log_reads_back(rest);
        assert(single_line(records[records.len() - 1]));
        lemma_append_reads_back(framed_log(rest), records.last());
        assert(rest.push(records.last()) =~= records);
    }
}

// ---------------------------------------------------------------------------
// The `--since` cursor
// ---------------------------------------------------------------------------

/// A message is newer than the cursor when the text of its id follows the
/// cursor in lexicographic order; without a cursor every message is.
pub open spec fn newer_than(id: u128, since: Option<Seq<char>>) -> bool {
    match since {
        Some(s) => seq_lt(s, ulid_text(id)),
        None => true,
    }
}

/// A `--since` cursor that is the text of the id `k` selects exactly the
/// messages whose ids are above `k`: nothing at or before the cursor comes
/// back, and nothing after it is missed.
pub proof fn lemma_since_selects_later_ids(id: u128, k: u128)
    ensures
        newer_than(id, Some(ulid_text(k))) == (k < id),
{
    crate::message::id::lemma_ulid_text_order(k, id);
}

proof fn lemma_filter_filter(s: Seq<Message>, p: spec_fn(Message) -> bool, q: spec_fn(Message) -> bool, r: spec_fn(Message) -> bool)
    requires
        forall|m: Message| (#[trigger] r(m)) == (p(m) && q(m)),
    ensures
        s.filter(p).filter(q) == s.filter(r),
    decreases s.len(),
{
    reveal(Seq::filter);
    if s.len() > 0 {
        lemma_filter_filter(s.drop_last(), p, q, r);
        assert(r(s.last()) == (p(s.last()) && q(s.last())));
        if p(s.last()) {
            assert(s.filter(p).drop_last() =~= s.drop_last().filter(p));
            assert(s.filter(p).last() == s.last());
        }
    }
}

/// The later of two cursors in lexicographic order.
pub open spec fn later_cursor(a: Seq<char>, b: Seq<char>) -> Seq<char> {
    if seq_lt(a, b) {
        b
    } else {
        a
    }
}

/// Two successive `--since` filters are one filter at the later cursor; in
/// particular filtering twice at one cursor changes nothing more.
pub proof fn lemma_since_twice(messages: Seq<Message>, a: Seq<char>, b: Seq<char>)
    ensures
        since_filter(since_filter(messages, Some(a)), Some(b)) == since_filter(
            messages,
            Some(later_cursor(a, b)),
        ),
{
    let c = later_cursor(a, b);
    assert forall|m: Message| #[trigger] newer_than(m.id, Some(c)) == (newer_than(m.id, Some(a))
        && newer_than(m.id, Some(b))) by {
        let t = ulid_text(m.id);
        crate::text::lemma_seq_lt_total(a, b);
        if seq_lt(a, b) {
            if seq_lt(b, t) {
                crate::text::lemma_seq_lt_transitive(a, b, t);
            }
        } else if a != b {
            if seq_lt(a, t) {
                crate::text::lemma_seq_lt_transitive(b, a, t);
            }
        }
    }
    lemma_filter_filter(
        messages,
        |m: Message| newer_than(m.id, Some(a)),
        |m: Message| newer_than(m.id, Some(b)),
        |m: Message| newer_than(m.id, Some(c)),
    );
}

/// The messages of `messages` newer than `since`, in their order.
pub open spec fn since_filter(messages: Seq<Message>, since: Option<Seq<char>>) -> Seq<Message> {
    messages.filter(|m: Message| newer_than(m.id, since))
}

/// Returns messages with id strictly greater than `since` (lexicographic).
pub fn filter_since(messages: Vec<Message>, since: Option<&str>) -> (r: Vec<Message>)
    ensures
        r@ == since_filter(messages@, crate::storage::paths::opt_view(since)),
{
    let ghost all = messages@;
    let ghost cursor = crate::storage::paths::opt_view(since);
    let n = messages.len();
    let mut out: Vec<Message> = Vec::new();
    let mut idx: usize = 0;
    for m in it: messages.into_iter()
        invariant
            all == it.seq(),
            all.len() == n,
            cursor == crate::storage::paths::opt_view(since),
            idx == it.index(),
            out@ == since_filter(all.take(idx as int), cursor),
    {
        let keep = match since {
            None => true,
            Some(s) => {
                let text = ulid_string(m.id);
                str_lt(s, text.as_str())
            },
        };
        proof {
            reveal(Seq::filter);
            assert(all.take(idx + 1).drop_last() =~= all.take(idx as int));
            assert(all.take(idx + 1).last() == m);
        }
        if keep {
            out.push(m);
        }
        idx = idx + 1;
    }
    proof {
        assert(all.take(idx as int) =~= all);
    }
    out
}

// ---------------------------------------------------------------------------
// Channel names
// ---------------------------------------------------------------------------

/// The channel that a file name holds: the stem of a `*.jsonl` name (the
/// extension as `Path::extension` finds it, after the last dot of a name
/// that does not start with that dot).
pub open spec fn jsonl_stem(name: Seq<char>) -> Option<Seq<char>> {
    if name.len() > 6 && name.skip(name.len() - 6) == ".jsonl"@ {
        Some(name.take(name.len() - 6))
    } else {
        None
    }
}

/// The channels among a directory's file names, in the order of the names.
pub open spec fn channels_among(names: Seq<Seq<char>>) -> Seq<Seq<char>> {
    names.filter_map(|n: Seq<char>| jsonl_stem(n))
}

/// A channel's log file lists back as that channel: the stem of
/// `<channel>.jsonl` is the channel, and a name with a stem is that stem
/// followed by `.jsonl`.
pub proof fn lemma_channel_file_lists_back(channel: Seq<char>, name: Seq<char>)
    ensures
        channel.len() > 0 ==> jsonl_stem(channel + ".jsonl"@) == Some(channel),
        jsonl_stem(name) matches Some(c) ==> c.len() > 0 && name == c + ".jsonl"@,
{
    reveal_strlit(".jsonl");
    let f = channel + ".jsonl"@;
    assert(f.skip(f.len() - 6) =~= ".jsonl"@);
    assert(f.take(f.len() - 6) =~= channel);
    if name.len() > 6 && name.skip(name.len() - 6) == ".jsonl"@ {
        assert(name =~= name.take(name.len() - 6) + name.skip(name.len() - 6));
    }
}

fn stem_of(name: &str) -> (r: Option<String>)
    ensures
        match r {
            Some(s) => jsonl_stem(name@) == Some(s@),
            None => jsonl_stem(name@) is None,
        },
{
    let cs = chars_of(name);
    let n = cs.len();
    proof {
        reveal_strlit(".jsonl");
    }
    if n > 6 && cs[n - 6] == '.' && cs[n - 5] == 'j' && cs[n - 4] == 's' && cs[n - 3] == 'o'
        && cs[n - 2] == 'n' && cs[n - 1] == 'l' {
        assert(name@.skip(n - 6) =~= ".jsonl"@);
        Some(String::from_str(name.substring_char(0, n - 6)))
    } else {
        proof {
            if n > 6 && name@.skip(n - 6) == ".jsonl"@ {
                assert(name@.skip(n - 6)[0] == name@[n - 6]);
                assert(name@.skip(n - 6)[1] == name@[n - 5]);
                assert(name@.skip(n - 6)[2] == name@[n - 4]);
                assert(name@.skip(n - 6)[3] == name@[n - 3]);
                assert(name@.skip(n - 6)[4] == name@[n - 2]);
                assert(name@.skip(n - 6)[5] == name@[n - 1]);
            }
        }
        None
    }
}

/// Lists the channels among the file names of the storage root: the stems of
/// the `*.jsonl` names, sorted.
pub fn channel_names(file_names: Vec<String>) -> (r: Vec<String>)
    ensures
        strings_sorted(r@),
        views(r@).to_multiset() == channels_among(views(file_names@)).to_multiset(),
{
    let ghost names = views(file_names@);
    let mut stems: Vec<String> = Vec::new();
    let mut i: usize = 0;
    while i < file_names.len()
        invariant
            names == views(file_names@),
            i <= file_names.len(),
            views(stems@) == channels_among(names.take(i as int)),
        decreases file_names.len() - i,
    {
        let stem = stem_of(file_names[i].as_str());
        proof {
            let t = names.take(i + 1);
            assert(t.drop_last() =~= names.take(i as int));
            assert(t.last() == file_names@[i as int]@);
        }
        match stem {
            Some(s) => {
                let ghost prev = stems@;
                stems.push(s);
                assert(views(stems@) =~= views(prev) + seq![stems@.last()@]);
            },
            None => {},
        }
        i = i + 1;
    }
    proof {
        assert(names.take(i as int) =~= names);
    }
    sort_strings(stems)
}

} // verus!
