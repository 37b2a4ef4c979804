//! `read`: which messages a reader is shown, once or while following a
//! channel, and where its cursor stands afterwards.
//!
//! The command alternates outside work (reading the log, printing, sleeping)
//! with the decisions made here: `start_read` checks the arguments and sets
//! up the reader's state, and each call of `read_step` takes the messages the
//! log holds now and returns those to show and the next state.

use vstd::prelude::*;

use vstd::utf8::encode_utf8;

use crate::cli::validate::valid_channel_name;
use crate::error::CliError;
use crate::message::Message;
use crate::message::id::{is_ulid_text, lemma_ulid_text_order, ulid_string, ulid_text};
use crate::storage::reader::{filter_since, newer_than, since_filter};
use crate::text::{lemma_seq_lt_transitive, seq_lt};

verus! {

/// Arguments of `read`.
#[derive(Debug)]
pub struct ReadArgs {
    /// Channel to read from.
    pub channel: String,
    /// Only return messages with id strictly greater than this ULID.
    pub since: Option<String>,
    /// Output in human-readable format instead of JSON Lines.
    pub pretty: bool,
    /// After reading existing messages, keep polling for new ones.
    pub follow: bool,
    /// With `follow`: show nothing of what the log holds at the start.
    pub from_now: bool,
    /// Do not show messages from this sender.
    pub exclude_from: Option<String>,
}

/// Where a reader stands.
#[derive(Debug)]
pub struct ReadState {
    /// The id text of the last message seen; only later ones are new.
    pub cursor: Option<String>,
    /// Messages from this sender are not shown.
    pub exclude_from: Option<String>,
    /// The next step shows nothing (it only moves the cursor).
    pub silent: bool,
}

/// The view of an optional string.
pub open spec fn opt_string(o: Option<String>) -> Option<Seq<char>> {
    match o {
        Some(s) => Some(s@),
        None => None,
    }
}

/// A message is shown unless it comes from the excluded sender.
pub open spec fn shown(m: Message, exclude: Option<Seq<char>>) -> bool {
    !(exclude matches Some(x) && m.from@ == x)
}

/// The messages that are shown, in order.
pub open spec fn visible(msgs: Seq<Message>, exclude: Option<Seq<char>>) -> Seq<Message> {
    msgs.filter(|m: Message| shown(m, exclude))
}

/// What one step shows: the messages newer than the cursor that are not
/// excluded; nothing on a silent step.
pub open spec fn step_shows(
    cursor: Option<Seq<char>>,
    exclude: Option<Seq<char>>,
    silent: bool,
    msgs: Seq<Message>,
) -> Seq<Message> {
    if silent {
        Seq::empty()
    } else {
        visible(since_filter(msgs, cursor), exclude)
    }
}

/// Where the cursor stands after a step: at the id of the last new message,
/// or where it was when there is none.
pub open spec fn step_cursor(cursor: Option<Seq<char>>, msgs: Seq<Message>) -> Option<Seq<char>> {
    let fresh = since_filter(msgs, cursor);
    if fresh.len() > 0 {
        Some(ulid_text(fresh.last().id))
    } else {
        cursor
    }
}

/// The state in which `read` starts, when its arguments are valid: the
/// channel name is valid and `since`, when given, is a ULID.
pub fn start_read(args: &ReadArgs) -> (r: Result<ReadState, CliError>)
    ensures
        r is Ok <==> valid_channel_name(encode_utf8(args.channel@)) && (args.since matches Some(s)
            ==> is_ulid_text(encode_utf8(s@))),
        r matches Err(e) ==> if !valid_channel_name(encode_utf8(args.channel@)) {
            e matches CliError::InvalidChannelName(t) && t@ == args.channel@
        } else {
            e matches CliError::InvalidUlid(t) && args.since matches Some(s) && t@ == s@
        },
        r matches Ok(st) ==> opt_string(st.cursor) == opt_string(args.since) && opt_string(
            st.exclude_from,
        ) == opt_string(args.exclude_from) && st.silent == args.from_now,
{
    crate::cli::validate::validate_channel_name(args.channel.as_str())?;
    match &args.since {
        Some(s) => {
            crate::cli::validate::validate_ulid_string(s.as_str())?;
        },
        None => {},
    }
    Ok(
        ReadState {
            cursor: copy_opt(&args.since),
            exclude_from: copy_opt(&args.exclude_from),
            silent: args.from_now,
        },
    )
}

fn copy_opt(o: &Option<String>) -> (r: Option<String>)
    ensures
        opt_string(r) == opt_string(*o),
{
    match o {
        Some(s) => Some(s.clone()),
        None => None,
    }
}

fn drop_excluded(msgs: Vec<Message>, exclude: &Option<String>) -> (r: Vec<Message>)
    ensures
        r@ == visible(msgs@, opt_string(*exclude)),
{
    let ghost all = msgs@;
    let ghost ex = opt_string(*exclude);
    let n = msgs.len();
    let mut out: Vec<Message> = Vec::new();
    let mut idx: usize = 0;
    for m in it: msgs.into_iter()
        invariant
            all == it.seq(),
            all.len() == n,
            ex == opt_string(*exclude),
            idx == it.index(),
            out@ == visible(all.take(idx as int), ex),
    {
        let keep = match exclude {
            Some(x) => m.from != *x,
            None => true,
        };
        proof {
            reveal(Seq::filter);
            assert(all.take(idx + 1).drop_last() =~= all.take(idx as int));
            assert(all.take(idx + 1).last() == m);
        }
        if keep {
            out.push(m);
        }
        idx = idx + 1;
    }
    proof {
        assert(all.take(idx as int) =~= all);
    }
    out
}

/// One step of a reader: given the messages that the log holds now, returns
/// those to show and the reader's next state.
pub fn read_step(state: &ReadState, messages: Vec<Message>) -> (r: (Vec<Message>, ReadState))
    ensures
        r.0@ == step_shows(
            opt_string(state.cursor),
            opt_string(state.exclude_from),
            state.silent,
            messages@,
        ),
        opt_string(r.1.cursor) == step_cursor(opt_string(state.cursor), messages@),
        opt_string(r.1.exclude_from) == opt_string(state.exclude_from),
        !r.1.silent,
{
    let fresh = match &state.cursor {
        Some(c) => filter_since(messages, Some(c.as_str())),
        None => filter_since(messages, None),
    };
    let cursor = if fresh.len() > 0 {
        Some(ulid_string(fresh[fresh.len() - 1].id))
    } else {
        copy_opt(&state.cursor)
    };
    let shows = if state.silent {
        Vec::new()
    } else {
        drop_excluded(fresh, &state.exclude_from)
    };
    (shows, ReadState { cursor, exclude_from: copy_opt(&state.exclude_from), silent: false })
}

// ---------------------------------------------------------------------------
// Following a channel
// ---------------------------------------------------------------------------

/// Ids increase along the log, as they do when every sender draws them from
/// a monotonic ULID generator under the log's lock.
pub open spec fn ids_increasing(msgs: Seq<Message>) -> bool {
    forall|i: int, j: int| 0 <= i < j < msgs.len() ==> #[trigger] msgs[i].id < #[trigger] msgs[j].id
}

/// `log1` is what the log held before `log2`: the log only grows at its end.
pub open spec fn appended_to(log1: Seq<Message>, log2: Seq<Message>) -> bool {
    log1.len() <= log2.len() && log2.take(log1.len() as int) == log1
}

proof fn lemma_filter_none<A>(s: Seq<A>, p: spec_fn(A) -> bool)
    requires
        forall|i: int| 0 <= i < s.len() ==> !p(#[trigger] s[i]),
    ensures
        s.filter(p) == Seq::<A>::empty(),
    decreases s.len(),
{
    reveal(Seq::filter);
    if s.len() > 0 {
        assert(!p(s[s.len() - 1]));
        lemma_filter_none(s.drop_last(), p);
    }
}

proof fn lemma_filter_all<A>(s: Seq<A>, p: spec_fn(A) -> bool)
    requires
        forall|i: int| 0 <= i < s.len() ==> p(#[trigger] s[i]),
    ensures
        s.filter(p) == s,
    decreases s.len(),
{
    reveal(Seq::filter);
    if s.len() > 0 {
        assert(p(s[s.len() - 1]));
        lemma_filter_all(s.drop_last(), p);
        assert(s.drop_last().push(s.last()) =~= s);
    }
}

proof fn lemma_filter_split<A>(s: Seq<A>, k: int, p: spec_fn(A) -> bool)
    requires
        0 <= k <= s.len(),
    ensures
        s.filter(p) == s.take(k).filter(p) + s.skip(k).filter(p),
{
    Seq::filter_distributes_over_add(s.take(k), s.skip(k), p);
    assert(s.take(k) + s.skip(k) =~= s);
}

/// In a log whose ids increase, newness relative to a cursor only ever turns
/// on along the log.
proof fn lemma_newer_upward(log: Seq<Message>, c: Option<Seq<char>>, i: int, j: int)
    requires
        ids_increasing(log),
        0 <= i < j < log.len(),
        newer_than(log[i].id, c),
    ensures
        newer_than(log[j].id, c),
{
    if c is Some {
        lemma_ulid_text_order(log[i].id, log[j].id);
        lemma_seq_lt_transitive(c->0, ulid_text(log[i].id), ulid_text(log[j].id));
    }
}

/// When some message of an increasing log is new, the last one is, and the
/// cursor moves to it.
proof fn lemma_cursor_lands_on_last(log: Seq<Message>, c: Option<Seq<char>>)
    requires
        ids_increasing(log),
        since_filter(log, c).len() > 0,
    ensures
        log.len() > 0,
        since_filter(log, c).last() == log.last(),
        newer_than(log.last().id, c),
{
    let p = |m: Message| newer_than(m.id, c);
    if log.len() == 0 || !newer_than(log.last().id, c) {
        assert forall|i: int| 0 <= i < log.len() implies !p(#[trigger] log[i]) by {
            if newer_than(log[i].id, c) && i < log.len() - 1 {
                lemma_newer_upward(log, c, i, log.len() - 1);
            }
        }
        lemma_filter_none(log, p);
    }
    reveal(Seq::filter);
}

/// After the cursor has moved to the last message of an increasing log, the
/// new messages of a longer log are exactly those appended since.
proof fn lemma_new_after_last(log1: Seq<Message>, log2: Seq<Message>)
    requires
        ids_increasing(log2),
        appended_to(log1, log2),
        log1.len() > 0,
    ensures
        since_filter(log2, Some(ulid_text(log1.last().id))) == log2.skip(log1.len() as int),
{
    let n1 = log1.len() as int;
    let c = Some(ulid_text(log1.last().id));
    let p = |m: Message| newer_than(m.id, c);
    assert(log1.last() == log2[n1 - 1]);
    lemma_filter_split(log2, n1, p);
    assert forall|i: int| 0 <= i < log2.take(n1).len() implies !p(#[trigger] log2.take(n1)[i]) by {
        lemma_ulid_text_order(log2[n1 - 1].id, log2[i].id);
        crate::text::lemma_seq_lt_irreflexive(ulid_text(log2[i].id));
    }
    lemma_filter_none(log2.take(n1), p);
    assert forall|i: int| 0 <= i < log2.skip(n1).len() implies p(#[trigger] log2.skip(n1)[i]) by {
        lemma_ulid_text_order(log2[n1 - 1].id, log2[n1 + i].id);
    }
    lemma_filter_all(log2.skip(n1), p);
    assert(Seq::<Message>::empty() + log2.skip(n1) =~= log2.skip(n1));
}

/// Following a channel shows every new message exactly once and in order:
/// when the log only grows at its end and its ids increase, what a reader is
/// shown on one step and on the next together are the messages of the later
/// log that were new at the start, less those from the excluded sender.
pub proof fn lemma_follow_shows_each_message_once(
    cursor: Option<Seq<char>>,
    exclude: Option<Seq<char>>,
    log1: Seq<Message>,
    log2: Seq<Message>,
)
    requires
        appended_to(log1, log2),
        ids_increasing(log2),
    ensures
        step_shows(cursor, exclude, false, log1) + step_shows(
            step_cursor(cursor, log1),
            exclude,
            false,
            log2,
        ) == visible(since_filter(log2, cursor), exclude),
{
    let q = |m: Message| shown(m, exclude);
    let n1 = log1.len() as int;
    let fresh1 = since_filter(log1, cursor);
    assert forall|i: int, j: int| 0 <= i < j < log1.len() implies #[trigger] log1[i].id
        < #[trigger] log1[j].id by {
        assert(log1[i] == log2[i] && log1[j] == log2[j]);
    }
    if fresh1.len() == 0 {
        assert(visible(fresh1, exclude) =~= Seq::<Message>::empty()) by {
            reveal(Seq::filter);
        }
        assert(Seq::<Message>::empty() + visible(since_filter(log2, cursor), exclude) =~= visible(
            since_filter(log2, cursor),
            exclude,
        ));
    } else {
        lemma_cursor_lands_on_last(log1, cursor);
        lemma_new_after_last(log1, log2);
        let p = |m: Message| newer_than(m.id, cursor);
        lemma_filter_split(log2, n1, p);
        assert(log2.take(n1) == log1);
        assert forall|i: int| 0 <= i < log2.skip(n1).len() implies p(#[trigger] log2.skip(n1)[i]) by {
            assert(log2[n1 - 1] == log1.last());
            lemma_newer_upward(log2, cursor, n1 - 1, n1 + i);
        }
        lemma_filter_all(log2.skip(n1), p);
        Seq::filter_distributes_over_add(fresh1, log2.skip(n1), q);
    }
}

/// Following from now shows nothing of what the log held at the start and
/// then every message appended after it, less those from the excluded sender.
pub proof fn lemma_from_now_skips_existing(
    exclude: Option<Seq<char>>,
    log1: Seq<Message>,
    log2: Seq<Message>,
)
    requires
        appended_to(log1, log2),
        ids_increasing(log2),
    ensures
        step_shows(None, exclude, true, log1) == Seq::<Message>::empty(),
        step_shows(step_cursor(None, log1), exclude, false, log2) == visible(
            log2.skip(log1.len() as int),
            exclude,
        ),
{
    let p = |m: Message| newer_than(m.id, None::<Seq<char>>);
    assert forall|i: int| 0 <= i < log1.len() implies p(#[trigger] log1[i]) by {}
    lemma_filter_all(log1, p);
    if log1.len() > 0 {
        assert(since_filter(log1, None).last() == log1.last());
        lemma_new_after_last(log1, log2);
    } else {
        assert forall|i: int| 0 <= i < log2.len() implies p(#[trigger] log2[i]) by {}
        lemma_filter_all(log2, p);
        assert(log2.skip(0) =~= log2);
    }
}

} // verus!
