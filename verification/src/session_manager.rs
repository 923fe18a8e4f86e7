//! What a client's session does with each datagram: which messages of it
//! are handled, in what order, and when the session ends.
//!
//! Each client address has an expected message number. A datagram's
//! messages are handled in the order they come when their number is the
//! one expected, which then moves on by one; a datagram that holds only a
//! message numbered 0 starts the count again. Errors of a handler are
//! reported and the next message goes on, except those that end the
//! session (`HandlerError::ends_session`).
use vstd::prelude::*;

use crate::handlers::util::{outcome, Outcome};
use crate::handlers::{handle_message, message_spec};
use crate::kaillera::protocol::{MessageSpec, ParsedMessage};
use crate::packet_util::{parse_packet, parse_spec};
use crate::state::{messages_view, AppState, HandlerError, Message, StateSpec};

verus! {

/// How long a session may stay silent, in milliseconds.
pub const SESSION_TIMEOUT_MS: u64 = 300000;

/// How often silent sessions are looked for, in milliseconds.
pub const CLEANUP_INTERVAL_MS: u64 = 3000;

/// Whether a session last seen at `last_seen` has been silent too long at
/// `now` (milliseconds of a monotonic clock).
pub open spec fn expired_spec(last_seen: u64, now: u64) -> bool {
    now >= last_seen && now - last_seen > SESSION_TIMEOUT_MS
}

pub fn session_expired(last_seen: u64, now: u64) -> (b: bool)
    ensures
        b == expired_spec(last_seen, now),
{
    now >= last_seen && now - last_seen > SESSION_TIMEOUT_MS
}

/// The addresses, in order, of the sessions (address, last seen) that have
/// expired at `now`.
pub open spec fn expired_addrs(sessions: Seq<(u64, u64)>, now: u64) -> Seq<u64>
    decreases sessions.len(),
{
    if sessions.len() == 0 {
        Seq::empty()
    } else {
        let prev = expired_addrs(sessions.drop_last(), now);
        if expired_spec(sessions.last().1, now) {
            prev.push(sessions.last().0)
        } else {
            prev
        }
    }
}

pub fn expired_sessions(sessions: &Vec<(u64, u64)>, now: u64) -> (v: Vec<u64>)
    ensures
        v@ == expired_addrs(sessions@, now),
{
    let mut v: Vec<u64> = Vec::new();
    let mut i: usize = 0;
    while i < sessions.len()
        invariant
            i <= sessions@.len(),
            v@ == expired_addrs(sessions@.take(i as int), now),
        decreases sessions@.len() - i,
    {
        assert(sessions@.take(i + 1).drop_last() =~= sessions@.take(i as int));
        let (addr, last_seen) = sessions[i];
        if session_expired(last_seen, now) {
            v.push(addr);
        }
        i = i + 1;
    }
    assert(sessions@.take(i as int) =~= sessions@);
    v
}

/// The expected number after a datagram's messages are seen: a datagram of
/// one message numbered 0 starts the count again.
pub open spec fn restart_spec(expected: Option<u16>, msgs: Seq<MessageSpec>) -> Option<u16> {
    if msgs.len() == 1 && msgs[0].number == 0 {
        Some(0)
    } else {
        expected
    }
}

/// Which of `msgs` are handled, from the expected number `expected` (none
/// counts as 0): their positions, the expected number after them, and
/// whether the count would pass 65535, which ends the session there.
pub open spec fn select_spec(expected: Option<u16>, msgs: Seq<MessageSpec>) -> (Seq<int>, Option<u16>, bool)
    decreases msgs.len(),
{
    if msgs.len() == 0 {
        (Seq::empty(), expected, false)
    } else {
        let prev = select_spec(expected, msgs.drop_last());
        if prev.2 {
            prev
        } else {
            let cur = match prev.1 {
                Some(e) => e,
                None => 0u16,
            };
            if msgs.last().number == cur {
                if cur == u16::MAX {
                    (prev.0, prev.1, true)
                } else {
                    (prev.0.push(msgs.len() - 1), Some((cur + 1) as u16), false)
                }
            } else {
                prev
            }
        }
    }
}

pub proof fn lemma_select(expected: Option<u16>, msgs: Seq<MessageSpec>)
    ensures
        forall|j: int| 0 <= j < select_spec(expected, msgs).0.len() ==> 0 <= #[trigger] select_spec(expected, msgs).0[j] < msgs.len()
            && msgs[select_spec(expected, msgs).0[j]].number < u16::MAX,
    decreases msgs.len(),
{
    if msgs.len() > 0 {
        let prev = select_spec(expected, msgs.drop_last());
        lemma_select(expected, msgs.drop_last());
        let cur = select_spec(expected, msgs).0;
        assert forall|j: int| 0 <= j < cur.len() implies 0 <= #[trigger] cur[j] < msgs.len() && msgs[cur[j]].number < u16::MAX by {
            if j < prev.0.len() {
                assert(prev.0[j] < msgs.drop_last().len());
                assert(msgs[prev.0[j]] == msgs.drop_last()[prev.0[j]]);
            }
        }
    }
}

/// Once the count would pass 65535, later messages change nothing.
pub proof fn lemma_select_stops(expected: Option<u16>, msgs: Seq<MessageSpec>, m: int, n: int)
    requires
        0 <= m <= n <= msgs.len(),
        select_spec(expected, msgs.take(m)).2,
    ensures
        select_spec(expected, msgs.take(n)) == select_spec(expected, msgs.take(m)),
    decreases n - m,
{
    if n > m {
        lemma_select_stops(expected, msgs, m, n - 1);
        assert(msgs.take(n).drop_last() =~= msgs.take(n - 1));
    }
}

/// The expected number as a count (none counts as 0).
pub open spec fn expected_value(e: Option<u16>) -> int {
    match e {
        Some(v) => v as int,
        None => 0,
    }
}

/// The messages handled are those numbered on from the expected number, one
/// after another, each once and in the order they came; the expected number
/// after them is the next one.
pub proof fn law_select_consecutive(expected: Option<u16>, msgs: Seq<MessageSpec>)
    ensures
        ({
            let sel = select_spec(expected, msgs);
            &&& forall|j: int| 0 <= j < sel.0.len() ==> msgs[#[trigger] sel.0[j]].number == expected_value(expected) + j
            &&& forall|a: int, b: int| 0 <= a < b < sel.0.len() ==> sel.0[a] < sel.0[b]
            &&& expected_value(sel.1) == expected_value(expected) + sel.0.len()
            &&& forall|j: int| 0 <= j < sel.0.len() ==> 0 <= #[trigger] sel.0[j] < msgs.len()
        }),
    decreases msgs.len(),
{
    if msgs.len() > 0 {
        let prev = select_spec(expected, msgs.drop_last());
        law_select_consecutive(expected, msgs.drop_last());
        let cur = select_spec(expected, msgs);
        assert forall|j: int| 0 <= j < prev.0.len() implies msgs[prev.0[j]] == msgs.drop_last()[prev.0[j]] by {
        }
        if !prev.2 {
            if cur.0.len() > prev.0.len() {
                assert(cur.0 == prev.0.push(msgs.len() - 1));
                assert forall|j: int| 0 <= j < cur.0.len() implies msgs[#[trigger] cur.0[j]].number == expected_value(expected) + j by {
                    if j < prev.0.len() {
                        assert(cur.0[j] == prev.0[j]);
                        assert(msgs[prev.0[j]] == msgs.drop_last()[prev.0[j]]);
                    }
                }
            }
        }
    }
}

/// A handler's error on a message.
pub struct MessageError {
    pub number: u16,
    pub kind: u8,
    pub error: HandlerError,
}

/// Whether an error ends the session.
pub open spec fn fatal_spec(e: HandlerError) -> bool {
    e is MessageTooShort || e is PacketTooLong || e is SequenceOverflow
        || e is CounterOverflow || e is MissingClient || e is MissingGame || e is MissingPlayer
}

/// Handling messages in turn, the logins among them taking the session ids
/// `sids` (one per message): the outcome, the errors that did not end the
/// session (number, type, error), the error that ended it if one did, and
/// how many messages were handled.
pub struct RunSpec {
    pub st: StateSpec,
    pub sent: Seq<(u64, Seq<u8>)>,
    pub errors: Seq<(u16, u8, HandlerError)>,
    pub fatal: Option<HandlerError>,
    pub handled: nat,
}

pub open spec fn run_spec(
    st: StateSpec,
    sent: Seq<(u64, Seq<u8>)>,
    src: u64,
    now: u64,
    welcome: Seq<char>,
    msgs: Seq<MessageSpec>,
    sids: Seq<u128>,
) -> RunSpec
    decreases msgs.len(),
{
    if msgs.len() == 0 {
        RunSpec { st, sent, errors: Seq::empty(), fatal: None, handled: 0 }
    } else {
        let prev = run_spec(st, sent, src, now, welcome, msgs.drop_last(), sids.drop_last());
        if prev.fatal is Some {
            prev
        } else {
            let m = msgs.last();
            let o = message_spec(prev.st, prev.sent, m, src, now, welcome, sids.last());
            match o.result {
                Ok(()) => RunSpec { st: o.st, sent: o.sent, handled: prev.handled + 1, ..prev },
                Err(e) => if fatal_spec(e) {
                    RunSpec { st: o.st, sent: o.sent, fatal: Some(e), handled: prev.handled + 1, ..prev }
                } else {
                    RunSpec {
                        st: o.st,
                        sent: o.sent,
                        errors: prev.errors.push((m.number, m.kind, e)),
                        handled: prev.handled + 1,
                        ..prev
                    }
                },
            }
        }
    }
}

/// What the session makes of a datagram's messages `msgs` with expected
/// number `expected`: the messages selected are handled in turn (`sids` for
/// their logins); the session ends at an error that ends it, or where the
/// count would pass 65535. The result: the outcome, the expected number
/// after, the errors, and the error that ends the session.
pub open spec fn session_spec(
    st: StateSpec,
    sent: Seq<(u64, Seq<u8>)>,
    src: u64,
    now: u64,
    welcome: Seq<char>,
    expected: Option<u16>,
    msgs: Seq<MessageSpec>,
    sids: Seq<u128>,
) -> (RunSpec, Option<u16>) {
    let e0 = restart_spec(expected, msgs);
    let sel = select_spec(e0, msgs);
    let chosen = sel.0.map_values(|j: int| msgs[j]);
    let run = run_spec(st, sent, src, now, welcome, chosen, sids);
    let next = if run.handled == 0 {
        e0
    } else {
        Some((chosen[run.handled - 1].number + 1) as u16)
    };
    let fatal = if run.fatal is None && sel.2 {
        Some(HandlerError::SequenceOverflow)
    } else {
        run.fatal
    };
    (RunSpec { fatal, ..run }, next)
}

/// What a datagram did: the expected message number after it, the errors
/// of the handlers that did not end the session, and the error that ended
/// it, if one did.
pub struct PacketReport {
    pub next_expected: Option<u16>,
    pub errors: Vec<MessageError>,
    pub fatal: Option<HandlerError>,
}

pub open spec fn errors_view(v: Seq<MessageError>) -> Seq<(u16, u8, HandlerError)> {
    v.map_values(|e: MessageError| (e.number, e.kind, e.error))
}

/// Selects the messages to handle, as `select_spec` says.
fn select_messages(expected: Option<u16>, messages: &Vec<ParsedMessage>) -> (r: (Vec<usize>, Option<u16>, bool))
    ensures
        r.0@.map_values(|j: usize| j as int) == select_spec(expected, crate::packet_util::messages_view(messages@)).0,
        r.1 == select_spec(expected, crate::packet_util::messages_view(messages@)).1,
        r.2 == select_spec(expected, crate::packet_util::messages_view(messages@)).2,
{
    let ghost msgs = crate::packet_util::messages_view(messages@);
    let mut sel: Vec<usize> = Vec::new();
    let mut e = expected;
    let mut i: usize = 0;
    assert(msgs.take(0) =~= Seq::<MessageSpec>::empty());
    assert(sel@.map_values(|j: usize| j as int) =~= Seq::<int>::empty());
    while i < messages.len()
        invariant
            i <= messages@.len(),
            msgs == crate::packet_util::messages_view(messages@),
            msgs.len() == messages@.len(),
            sel@.map_values(|j: usize| j as int) == select_spec(expected, msgs.take(i as int)).0,
            e == select_spec(expected, msgs.take(i as int)).1,
            !select_spec(expected, msgs.take(i as int)).2,
        decreases messages@.len() - i,
    {
        assert(msgs.take(i + 1).drop_last() =~= msgs.take(i as int));
        assert(msgs.take(i + 1).last() == messages@[i as int]@);
        let cur: u16 = match e {
            Some(v) => v,
            None => 0,
        };
        if messages[i].message_number == cur {
            if cur == u16::MAX {
                proof {
                    lemma_select_stops(expected, msgs, i + 1, msgs.len() as int);
                    assert(msgs.take(msgs.len() as int) =~= msgs);
                }
                return (sel, e, true);
            }
            let ghost before = sel@;
            sel.push(i);
            assert(sel@.map_values(|j: usize| j as int) =~= before.map_values(|j: usize| j as int).push(i as int));
            e = Some(cur + 1);
        }
        i = i + 1;
    }
    assert(msgs.take(i as int) =~= msgs);
    (sel, e, false)
}

/// Once a message ends the session, later messages change nothing.
pub proof fn lemma_run_stops(
    st: StateSpec,
    sent: Seq<(u64, Seq<u8>)>,
    src: u64,
    now: u64,
    welcome: Seq<char>,
    msgs: Seq<MessageSpec>,
    sids: Seq<u128>,
    m: int,
    n: int,
)
    requires
        0 <= m <= n <= msgs.len(),
        n <= sids.len(),
        run_spec(st, sent, src, now, welcome, msgs.take(m), sids.take(m)).fatal is Some,
    ensures
        run_spec(st, sent, src, now, welcome, msgs.take(n), sids.take(n)) == run_spec(
            st,
            sent,
            src,
            now,
            welcome,
            msgs.take(m),
            sids.take(m),
        ),
    decreases n - m,
{
    if n > m {
        lemma_run_stops(st, sent, src, now, welcome, msgs, sids, m, n - 1);
        assert(msgs.take(n).drop_last() =~= msgs.take(n - 1));
        assert(sids.take(n).drop_last() =~= sids.take(n - 1));
    }
}

/// Handles a datagram `data` from `src` at time `now`, the session
/// expecting message number `expected`. A datagram that does not parse is
/// refused with the parser's message and changes nothing.
pub fn process_packet(
    state: &mut AppState,
    out: &mut Vec<Message>,
    data: &[u8],
    src: u64,
    expected: Option<u16>,
    now: u64,
    welcome_message: &str,
) -> (r: Result<PacketReport, String>)
    requires
        old(state).wf(),
        welcome_message@.len() <= 0x1000_0000,
    ensures
        final(state).wf(),
        parse_spec(data@) is Err ==> final(state)@ == old(state)@ && final(out)@ == old(out)@ && (r matches Err(
            s,
        ) && s@ == crate::packet_util::error_text(parse_spec(data@)->Err_0)),
        parse_spec(data@) matches Ok(msgs) ==> (r matches Ok(rep) && exists|sids: Seq<u128>|
            {
                let res = #[trigger] session_spec(
                    old(state)@,
                    messages_view(old(out)@),
                    src,
                    now,
                    welcome_message@,
                    expected,
                    msgs,
                    sids,
                );
                &&& final(state)@ == res.0.st
                &&& messages_view(final(out)@) == res.0.sent
                &&& errors_view(rep.errors@) == res.0.errors
                &&& rep.fatal == res.0.fatal
                &&& rep.next_expected == res.1
            }),
{
    let ghost st0 = state@;
    let ghost sent0 = messages_view(out@);
    let ghost w = welcome_message@;
    let messages = match parse_packet(data) {
        Ok(v) => v,
        Err(e) => {
            return Err(e);
        },
    };
    let ghost msgs = crate::packet_util::messages_view(messages@);
    assert(msgs == parse_spec(data@)->Ok_0);
    let e0: Option<u16> = if messages.len() == 1 && messages[0].message_number == 0 {
        Some(0)
    } else {
        expected
    };
    assert(e0 == restart_spec(expected, msgs));
    let (sel, _e_end, overflow) = select_messages(e0, &messages);
    let ghost selv = select_spec(e0, msgs).0;
    let ghost chosen = selv.map_values(|j: int| msgs[j]);
    proof {
        lemma_select(e0, msgs);
    }
    let mut errors: Vec<MessageError> = Vec::new();
    let mut fatal: Option<HandlerError> = None;
    let mut last_number: u16 = 0;
    let mut k: usize = 0;
    proof {
        assert(chosen.take(0) =~= Seq::<MessageSpec>::empty());
        assert(errors_view(errors@) =~= Seq::<(u16, u8, HandlerError)>::empty());
        let s0 = Seq::<u128>::empty();
        assert(run_spec(st0, sent0, src, now, w, chosen.take(0), s0) == RunSpec {
            st: state@,
            sent: messages_view(out@),
            errors: errors_view(errors@),
            fatal: None,
            handled: 0,
        });
    }
    while k < sel.len() && fatal.is_none()
        invariant
            state.wf(),
            welcome_message@.len() <= 0x1000_0000,
            w == welcome_message@,
            k <= sel@.len(),
            sel@.map_values(|j: usize| j as int) == selv,
            selv == select_spec(e0, msgs).0,
            chosen == selv.map_values(|j: int| msgs[j]),
            msgs == crate::packet_util::messages_view(messages@),
            msgs.len() == messages@.len(),
            forall|j: int| 0 <= j < selv.len() ==> 0 <= #[trigger] selv[j] < msgs.len() && msgs[selv[j]].number < u16::MAX,
            k > 0 ==> last_number == chosen[k - 1].number,
            exists|sids: Seq<u128>|
                sids.len() == k && #[trigger] run_spec(st0, sent0, src, now, w, chosen.take(k as int), sids)
                    == (RunSpec {
                    st: state@,
                    sent: messages_view(out@),
                    errors: errors_view(errors@),
                    fatal: fatal,
                    handled: k as nat,
                }),
        decreases sel@.len() - k,
    {
        let ghost sids = choose|sids: Seq<u128>|
            sids.len() == k && #[trigger] run_spec(st0, sent0, src, now, w, chosen.take(k as int), sids) == (RunSpec {
                st: state@,
                sent: messages_view(out@),
                errors: errors_view(errors@),
                fatal: fatal,
                handled: k as nat,
            });
        let ghost stk = state@;
        let ghost sentk = messages_view(out@);
        let ghost errk = errors_view(errors@);
        assert(selv[k as int] == sel@[k as int] as int);
        let idx = sel[k];
        let message = &messages[idx];
        assert(chosen[k as int] == message@);
        let r = handle_message(state, out, message, src, now, welcome_message);
        let ghost sid = choose|sid: u128|
            outcome(state@, messages_view(out@), r) == #[trigger] message_spec(stk, sentk, message@, src, now, w, sid);
        last_number = message.message_number;
        match r {
            Ok(()) => {},
            Err(e) => {
                if e.ends_session() {
                    fatal = Some(e);
                } else {
                    let ghost ev = e;
                    errors.push(MessageError { number: message.message_number, kind: message.message_type, error: e });
                    assert(errors_view(errors@) =~= errk.push((message@.number, message@.kind, ev)));
                }
            },
        }
        proof {
            let sids2 = sids.push(sid);
            assert(chosen.take(k + 1).drop_last() =~= chosen.take(k as int));
            assert(chosen.take(k + 1).last() == chosen[k as int]);
            assert(sids2.drop_last() =~= sids);
            assert(run_spec(st0, sent0, src, now, w, chosen.take(k + 1), sids2) == (RunSpec {
                st: state@,
                sent: messages_view(out@),
                errors: errors_view(errors@),
                fatal: fatal,
                handled: (k + 1) as nat,
            }));
        }
        k = k + 1;
    }
    let next: Option<u16> = if k == 0 {
        e0
    } else {
        Some(last_number + 1)
    };
    let ghost fatal_run = fatal;
    if fatal.is_none() && overflow {
        fatal = Some(HandlerError::SequenceOverflow);
    }
    proof {
        let sids = choose|sids: Seq<u128>|
            sids.len() == k && #[trigger] run_spec(st0, sent0, src, now, w, chosen.take(k as int), sids) == (RunSpec {
                st: state@,
                sent: messages_view(out@),
                errors: errors_view(errors@),
                fatal: fatal_run,
                handled: k as nat,
            });
        let n = chosen.len() as int;
        let sidsf = sids + Seq::new((n - k) as nat, |i: int| 0u128);
        assert(sidsf.take(k as int) =~= sids);
        assert(sidsf.take(n) =~= sidsf);
        assert(chosen.take(n) =~= chosen);
        if k < n {
            lemma_run_stops(st0, sent0, src, now, w, chosen, sidsf, k as int, n);
        }
        let res = session_spec(st0, sent0, src, now, w, expected, msgs, sidsf);
        assert(res.0.st == state@);
        assert(res.1 == next);
        assert(res.0.fatal == fatal);
    }
    Ok(PacketReport { next_expected: next, errors, fatal })
}

} // verus!
