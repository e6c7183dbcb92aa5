//! The run of the producer: which event comes next, what it says, and what became of it.

use vstd::arithmetic::power::pow;
use vstd::prelude::*;
use vstd::utf8::{encode_utf8, is_ascii_chars, is_ascii_chars_encode_utf8};

use crate::text::{
    append_decimal, append_right_aligned, decimal, is_numeral, lacks, repeated, right_aligned, split,
};
use crate::text_laws::{law_decimal_is_the_numeral, law_numeral_is_unique, law_right_alignment};
use crate::text_lemmas::{
    lemma_cut_unique, lemma_decimal_digits, lemma_decimal_injective, lemma_decimal_len,
    lemma_split_concat, lemma_split_whole,
};

verus! {

/// What became of one send.
#[derive(Debug)]
pub enum Outcome {
    /// The hub answered with a status code, which `status` shows with its reason.
    Answered { code: u16, status: String },
    /// There was no answer, for the reason that `error` gives.
    Failed { error: String },
}

impl Outcome {
    /// The hub took the event: the status code is one of success.
    pub open spec fn accepted(self) -> bool {
        self matches Outcome::Answered { code, .. } && 200 <= code < 300
    }

    /// Whether the hub took the event.
    pub fn is_accepted(&self) -> (r: bool)
        ensures
            r == self.accepted(),
    {
        match self {
            Outcome::Answered { code, .. } => is_success(*code),
            Outcome::Failed { .. } => false,
        }
    }
}

/// What the producer does next.
#[derive(Debug, Clone, Copy, PartialEq, Eq, Structural)]
pub enum Step {
    /// Send the next event.
    Send,
    /// Send no more.
    Finish,
}

/// A line for the user on one event.
#[derive(Debug)]
pub enum Report {
    /// The event was accepted; for standard output.
    Success(String),
    /// It was not; for standard error.
    Failure(String),
}

/// A [`Report`] with its text as a sequence of characters.
#[verifier::ext_equal]
pub enum ReportView {
    Success(Seq<char>),
    Failure(Seq<char>),
}

impl View for Report {
    type V = ReportView;

    open spec fn view(&self) -> ReportView {
        match self {
            Report::Success(line) => ReportView::Success(line@),
            Report::Failure(line) => ReportView::Failure(line@),
        }
    }
}

/// An event that is ready to be sent.
#[derive(Debug)]
pub struct Event {
    pub seq: u64,
    pub body: String,
    /// The bytes of `body`: the payload, without HTTP headers or the token.
    pub body_len: u64,
}

/// How far a run has come.
#[derive(Debug)]
pub struct Producer {
    /// How many events to send; 0 stands for no limit.
    pub count: u32,
    /// The delay between sends, in milliseconds.
    pub interval_ms: u64,
    /// The events that the hub accepted.
    pub ok: u64,
    /// The events that it did not.
    pub failed: u64,
    /// The payload bytes of the accepted events.
    pub total_bytes: u64,
    /// The number of the next event.
    pub seq: u64,
}

/// The counters of a run.
pub struct Tally {
    pub ok: nat,
    pub failed: nat,
    pub total_bytes: nat,
    pub seq: nat,
}

impl Tally {
    /// The counters before the first event.
    pub open spec fn start() -> Tally {
        Tally { ok: 0, failed: 0, total_bytes: 0, seq: 0 }
    }

    /// The counters after one more event of `body_len` bytes.
    pub open spec fn after(self, body_len: nat, accepted: bool) -> Tally {
        if accepted {
            Tally {
                ok: self.ok + 1,
                total_bytes: self.total_bytes + body_len,
                seq: self.seq + 1,
                ..self
            }
        } else {
            Tally { failed: self.failed + 1, seq: self.seq + 1, ..self }
        }
    }

    /// The exit code of a program that ends with these counters.
    pub open spec fn exit_code(self) -> int {
        if self.failed > 0 {
            1
        } else {
            0
        }
    }

    /// The line after the last event.
    pub open spec fn summary(self) -> Seq<char> {
        "\nDone. "@ + decimal(self.ok) + " accepted, "@ + decimal(self.failed) + " failed, "@
            + decimal(self.total_bytes) + " bytes delivered."@
    }
}

/// What to do after `seq` events of `count`, where 0 stands for no limit.
pub open spec fn step_after(count: u32, seq: nat, stopped: bool) -> Step {
    if stopped || (count != 0 && seq >= count) {
        Step::Finish
    } else {
        Step::Send
    }
}

/// The body of an event: a JSON object with its number and the time in milliseconds.
pub open spec fn event_body(seq: u64, sent_at_ms: u128) -> Seq<char> {
    "{\"seq\":"@ + decimal(seq as nat) + ",\"sentAtMs\":"@ + decimal(sent_at_ms as nat)
        + ",\"note\":\"no partition key; expect round-robin\"}"@
}

/// The line on one event, given the counters after it.
pub open spec fn event_report(
    seq: nat,
    body_len: nat,
    outcome: Outcome,
    after: Tally,
) -> ReportView {
    let head = "seq "@ + right_aligned(decimal(seq), 6) + " -> "@;
    match outcome {
        Outcome::Answered { status, .. } => if outcome.accepted() {
            ReportView::Success(
                head + status@ + " | +"@ + decimal(body_len) + " B | total "@ + decimal(
                    after.total_bytes,
                ) + " B / "@ + decimal(after.ok) + " events"@,
            )
        } else {
            ReportView::Failure(head + status@ + " (NOT accepted)"@)
        },
        Outcome::Failed { error } => ReportView::Failure(head + "error: "@ + error@),
    }
}

/// The line before the first event.
pub open spec fn opening_text(count: u32, resource_uri: Seq<char>) -> Seq<char> {
    if count == 0 {
        "Producing continuously to "@ + resource_uri
            + " (no partition key -> broker round-robins). Ctrl-C to stop.\n"@
    } else {
        "Producing "@ + decimal(count as nat) + " event(s) to "@ + resource_uri
            + " (no partition key -> broker round-robins)\n"@
    }
}

/// An event body takes one byte for each character, and at most 150.
pub proof fn lemma_event_body_len(seq: u64, sent_at_ms: u128)
    ensures
        is_ascii_chars(event_body(seq, sent_at_ms)),
        encode_utf8(event_body(seq, sent_at_ms)).len() == event_body(seq, sent_at_ms).len(),
        event_body(seq, sent_at_ms).len() <= 150,
{
    let body = event_body(seq, sent_at_ms);
    reveal_strlit("{\"seq\":");
    reveal_strlit(",\"sentAtMs\":");
    reveal_strlit(",\"note\":\"no partition key; expect round-robin\"}");
    lemma_decimal_digits(seq as nat);
    lemma_decimal_digits(sent_at_ms as nat);
    assert(pow(10, 39) > u128::MAX) by {
        reveal_with_fuel(pow, 40);
    }
    lemma_decimal_len(seq as nat, 39);
    lemma_decimal_len(sent_at_ms as nat, 39);
    is_ascii_chars_encode_utf8(body);
}

/// Whether a status code is one of success.
pub fn is_success(code: u16) -> (r: bool)
    ensures
        r == (200 <= code < 300),
{
    200 <= code && code < 300
}

/// The line before the first event.
pub fn opening_line(count: u32, resource_uri: &str) -> (r: String)
    ensures
        r@ == opening_text(count, resource_uri@),
{
    let mut line = String::new();
    if count == 0 {
        line.append("Producing continuously to ");
        line.append(resource_uri);
        line.append(" (no partition key -> broker round-robins). Ctrl-C to stop.\n");
    } else {
        line.append("Producing ");
        append_decimal(&mut line, count as u128);
        line.append(" event(s) to ");
        line.append(resource_uri);
        line.append(" (no partition key -> broker round-robins)\n");
    }
    assert(line@ =~= opening_text(count, resource_uri@));
    line
}

impl Producer {
    /// The counters.
    pub open spec fn tally(self) -> Tally {
        Tally {
            ok: self.ok as nat,
            failed: self.failed as nat,
            total_bytes: self.total_bytes as nat,
            seq: self.seq as nat,
        }
    }

    /// Every event sent was accepted or not, and no more were sent than asked for.
    pub open spec fn well_formed(self) -> bool {
        &&& self.ok + self.failed == self.seq
        &&& self.count != 0 ==> self.seq <= self.count
    }

    /// The counters can take one more event of `body_len` bytes with that outcome.
    pub open spec fn has_room(self, body_len: u64, outcome: Outcome) -> bool {
        &&& self.seq < u64::MAX
        &&& outcome.accepted() ==> self.total_bytes + body_len <= u64::MAX
    }

    /// The counters are those of a run of `events`, each given by its size and whether it was accepted.
    pub open spec fn has_counted(self, events: Seq<(nat, bool)>) -> bool {
        &&& self.ok == events.filter(|e: (nat, bool)| e.1).len()
        &&& self.failed == events.filter(|e: (nat, bool)| !e.1).len()
        &&& self.total_bytes == accepted_bytes(events)
        &&& self.seq == events.len()
    }

    /// A run before its first event.
    pub fn new(count: u32, interval_ms: u64) -> (r: Producer)
        ensures
            r.well_formed(),
            r.count == count,
            r.interval_ms == interval_ms,
            r.tally() == Tally::start(),
            r.ok == 0 && r.failed == 0 && r.total_bytes == 0 && r.seq == 0,
            r.has_counted(Seq::empty()),
    {
        proof {
            reveal(Seq::filter);
        }
        Producer { count, interval_ms, ok: 0, failed: 0, total_bytes: 0, seq: 0 }
    }

    /// What to do next, where `stopped` says that the user asked to stop.
    pub fn next_step(&self, stopped: bool) -> (r: Step)
        ensures
            r == step_after(self.count, self.seq as nat, stopped),
            r == Step::Send <==> !stopped && (self.count == 0 || self.seq < self.count),
    {
        if stopped || (self.count != 0 && self.seq >= self.count as u64) {
            Step::Finish
        } else {
            Step::Send
        }
    }

    /// The next event, made when the clock shows `now_ms` milliseconds after the Unix epoch, or `None`
    /// before it, which counts as 0.
    pub fn event(&self, now_ms: Option<u128>) -> (r: Event)
        ensures
            r.seq == self.seq,
            r.body@ == event_body(
                self.seq,
                match now_ms {
                    Some(now_ms) => now_ms,
                    None => 0,
                },
            ),
            r.body@ == "{\"seq\":"@ + decimal(self.seq as nat) + ",\"sentAtMs\":"@ + decimal(
                match now_ms {
                    Some(now_ms) => now_ms as nat,
                    None => 0,
                },
            ) + ",\"note\":\"no partition key; expect round-robin\"}"@,
            is_numeral(split(r.body@, ',')[0].skip(7), self.seq as nat),
            is_numeral(
                split(r.body@, ',')[1].skip(11),
                match now_ms {
                    Some(now_ms) => now_ms as nat,
                    None => 0,
                },
            ),
            r.body_len == encode_utf8(r.body@).len(),
    {
        let sent_at_ms: u128 = match now_ms {
            Some(now_ms) => now_ms,
            None => 0,
        };
        let mut body = String::new();
        body.append("{\"seq\":");
        append_decimal(&mut body, self.seq as u128);
        body.append(",\"sentAtMs\":");
        append_decimal(&mut body, sent_at_ms);
        body.append(",\"note\":\"no partition key; expect round-robin\"}");
        proof {
            assert(body@ =~= event_body(self.seq, sent_at_ms));
            lemma_event_body_len(self.seq, sent_at_ms);
            law_event_body_reads_back(self.seq, sent_at_ms);
        }
        let body_len: u64 = body.as_str().len() as u64;
        Event { seq: self.seq, body, body_len }
    }

    /// Whether the counters can take one more event of `body_len` bytes with that outcome.
    pub fn can_record(&self, body_len: u64, outcome: &Outcome) -> (r: bool)
        ensures
            r == self.has_room(body_len, *outcome),
    {
        self.seq < u64::MAX && (!outcome.is_accepted() || self.total_bytes <= u64::MAX - body_len)
    }

    /// Counts an event that was sent, and says what became of it.
    pub fn record(&mut self, body_len: u64, outcome: &Outcome) -> (r: Report)
        requires
            old(self).well_formed(),
            step_after(old(self).count, old(self).seq as nat, false) == Step::Send,
            old(self).has_room(body_len, *outcome),
        ensures
            final(self).well_formed(),
            final(self).count == old(self).count,
            final(self).interval_ms == old(self).interval_ms,
            final(self).tally() == old(self).tally().after(body_len as nat, outcome.accepted()),
            r@ == event_report(
                old(self).seq as nat,
                body_len as nat,
                *outcome,
                final(self).tally(),
            ),
            r is Success <==> outcome.accepted(),
            final(self).seq == old(self).seq + 1,
            outcome.accepted() ==> {
                &&& final(self).ok == old(self).ok + 1
                &&& final(self).failed == old(self).failed
                &&& final(self).total_bytes == old(self).total_bytes + body_len
            },
            !outcome.accepted() ==> {
                &&& final(self).ok == old(self).ok
                &&& final(self).failed == old(self).failed + 1
                &&& final(self).total_bytes == old(self).total_bytes
            },
            forall|events: Seq<(nat, bool)>| #[trigger]
                old(self).has_counted(events) ==> final(self).has_counted(
                    events.push((body_len as nat, outcome.accepted())),
                ),
    {
        proof {
            assert forall|events: Seq<(nat, bool)>| #[trigger] old(self).has_counted(events) implies {
                let longer = events.push((body_len as nat, outcome.accepted()));
                &&& longer.filter(|e: (nat, bool)| e.1).len() == old(self).ok + (if outcome.accepted() {
                    1int
                } else {
                    0
                })
                &&& longer.filter(|e: (nat, bool)| !e.1).len() == old(self).failed + (
                if outcome.accepted() {
                    0int
                } else {
                    1
                })
                &&& accepted_bytes(longer) == old(self).total_bytes + (if outcome.accepted() {
                    body_len as int
                } else {
                    0
                })
            } by {
                reveal(Seq::filter);
                let longer = events.push((body_len as nat, outcome.accepted()));
                assert(longer.drop_last() =~= events);
            }
        }
        let mut line = String::new();
        line.append("seq ");
        append_right_aligned(&mut line, self.seq as u128, 6);
        line.append(" -> ");
        let ghost head = "seq "@ + right_aligned(decimal(self.seq as nat), 6) + " -> "@;
        assert(line@ =~= head);
        self.seq = self.seq + 1;
        match outcome {
            Outcome::Answered { code, status } => {
                line.append(status.as_str());
                if is_success(*code) {
                    self.ok = self.ok + 1;
                    self.total_bytes = self.total_bytes + body_len;
                    line.append(" | +");
                    append_decimal(&mut line, body_len as u128);
                    line.append(" B | total ");
                    append_decimal(&mut line, self.total_bytes as u128);
                    line.append(" B / ");
                    append_decimal(&mut line, self.ok as u128);
                    line.append(" events");
                    Report::Success(line)
                } else {
                    self.failed = self.failed + 1;
                    line.append(" (NOT accepted)");
                    Report::Failure(line)
                }
            },
            Outcome::Failed { error } => {
                self.failed = self.failed + 1;
                line.append("error: ");
                line.append(error.as_str());
                Report::Failure(line)
            },
        }
    }

    /// How long to wait before the next step, in milliseconds, where `stopped` says that the user
    /// asked to stop.
    pub fn pause_ms(&self, stopped: bool) -> (r: Option<u64>)
        ensures
            r == if self.interval_ms > 0 && !stopped {
                Some(self.interval_ms)
            } else {
                None
            },
    {
        if self.interval_ms > 0 && !stopped {
            Some(self.interval_ms)
        } else {
            None
        }
    }

    /// The line after the last event.
    pub fn summary(&self) -> (r: String)
        ensures
            r@ == self.tally().summary(),
            r@ == "\nDone. "@ + decimal(self.ok as nat) + " accepted, "@ + decimal(self.failed as nat)
                + " failed, "@ + decimal(self.total_bytes as nat) + " bytes delivered."@,
            forall|events: Seq<(nat, bool)>| #[trigger]
                self.has_counted(events) ==> {
                    let words = split(r@, ' ');
                    &&& words.len() == 8
                    &&& is_numeral(words[1], events.filter(|e: (nat, bool)| e.1).len())
                    &&& words[2] == "accepted,"@
                    &&& is_numeral(words[3], events.filter(|e: (nat, bool)| !e.1).len())
                    &&& words[4] == "failed,"@
                    &&& is_numeral(words[5], accepted_bytes(events))
                    &&& words[6] == "bytes"@ && words[7] == "delivered."@
                },
    {
        let mut line = String::new();
        line.append("\nDone. ");
        append_decimal(&mut line, self.ok as u128);
        line.append(" accepted, ");
        append_decimal(&mut line, self.failed as u128);
        line.append(" failed, ");
        append_decimal(&mut line, self.total_bytes as u128);
        line.append(" bytes delivered.");
        proof {
            assert(line@ =~= self.tally().summary());
            assert forall|events: Seq<(nat, bool)>| #[trigger] self.has_counted(events) implies {
                let words = split(line@, ' ');
                &&& words.len() == 8
                &&& is_numeral(words[1], events.filter(|e: (nat, bool)| e.1).len())
                &&& words[2] == "accepted,"@
                &&& is_numeral(words[3], events.filter(|e: (nat, bool)| !e.1).len())
                &&& words[4] == "failed,"@
                &&& is_numeral(words[5], accepted_bytes(events))
                &&& words[6] == "bytes"@ && words[7] == "delivered."@
            } by {
                law_summary_tells_the_run(*self, events);
            }
        }
        line
    }

    /// The exit code of the program: 1 where an event was not accepted.
    pub fn exit_code(&self) -> (r: i32)
        ensures
            r == self.tally().exit_code(),
            r == 0 <==> self.failed == 0,
            r == 1 <==> self.failed > 0,
    {
        if self.failed > 0 {
            1
        } else {
            0
        }
    }
}

/// The counters after events of given sizes, each accepted or not.
pub open spec fn tally_of(events: Seq<(nat, bool)>) -> Tally
    decreases events.len(),
{
    if events.len() == 0 {
        Tally::start()
    } else {
        tally_of(events.drop_last()).after(events.last().0, events.last().1)
    }
}

/// The sum of the sizes of the accepted events.
pub open spec fn accepted_bytes(events: Seq<(nat, bool)>) -> nat
    decreases events.len(),
{
    if events.len() == 0 {
        0
    } else {
        accepted_bytes(events.drop_last()) + if events.last().1 {
            events.last().0
        } else {
            0
        }
    }
}

/// The counters of a run are what they say: the events that were accepted, those that were not, the
/// bytes of the accepted ones, and the events in all.
pub proof fn law_tally_counts(events: Seq<(nat, bool)>)
    ensures
        tally_of(events).ok == events.filter(|e: (nat, bool)| e.1).len(),
        tally_of(events).failed == events.filter(|e: (nat, bool)| !e.1).len(),
        tally_of(events).total_bytes == accepted_bytes(events),
        tally_of(events).seq == events.len(),
        tally_of(events).ok + tally_of(events).failed == events.len(),
    decreases events.len(),
{
    reveal(Seq::filter);
    if events.len() > 0 {
        law_tally_counts(events.drop_last());
    }
}

/// A run of `count` events that nobody stops sends exactly that many, and one without a count goes
/// on; once stopped, neither sends another.
pub proof fn law_run_length(count: u32, events: Seq<(nat, bool)>)
    ensures
        step_after(count, tally_of(events).seq, false) == Step::Send <==> count == 0
            || events.len() < count,
        step_after(count, tally_of(events).seq, true) == Step::Finish,
{
    law_tally_counts(events);
}

/// A run ends with the exit code 0 if every event was accepted, and with 1 if one was not.
pub proof fn law_exit_code_shows_failures(events: Seq<(nat, bool)>)
    ensures
        tally_of(events).exit_code() == 0 || tally_of(events).exit_code() == 1,
        tally_of(events).exit_code() == 0 <==> forall|i: int|
            0 <= i < events.len() ==> (#[trigger] events[i]).1,
    decreases events.len(),
{
    if events.len() > 0 {
        let before = events.drop_last();
        law_exit_code_shows_failures(before);
        assert(forall|i: int| 0 <= i < before.len() ==> before[i] == events[i]);
        assert(events.last() == events[events.len() - 1]);
        if forall|i: int| 0 <= i < before.len() ==> (#[trigger] before[i]).1 {
            assert(forall|i: int| 0 <= i < events.len() - 1 ==> events[i] == before[i]);
        } else {
            let i = choose|i: int| 0 <= i < before.len() && !(#[trigger] before[i]).1;
            assert(!events[i].1);
        }
    }
}

/// The body of an event tells its number and its time: two events with the same body agree in both.
pub proof fn law_event_body_identifies_event(seq1: u64, ms1: u128, seq2: u64, ms2: u128)
    requires
        event_body(seq1, ms1) == event_body(seq2, ms2),
    ensures
        seq1 == seq2,
        ms1 == ms2,
{
    let open = "{\"seq\":"@;
    let mid = ",\"sentAtMs\":"@;
    let end = ",\"note\":\"no partition key; expect round-robin\"}"@;
    reveal_strlit("{\"seq\":");
    reveal_strlit(",\"sentAtMs\":");
    reveal_strlit(",\"note\":\"no partition key; expect round-robin\"}");
    lemma_decimal_digits(seq1 as nat);
    lemma_decimal_digits(seq2 as nat);
    lemma_decimal_digits(ms1 as nat);
    lemma_decimal_digits(ms2 as nat);
    let rest1 = mid.skip(1) + decimal(ms1 as nat) + end;
    let rest2 = mid.skip(1) + decimal(ms2 as nat) + end;
    assert(event_body(seq1, ms1).skip(open.len() as int) =~= decimal(seq1 as nat) + seq![',']
        + rest1);
    assert(event_body(seq2, ms2).skip(open.len() as int) =~= decimal(seq2 as nat) + seq![',']
        + rest2);
    lemma_cut_unique(decimal(seq1 as nat), rest1, decimal(seq2 as nat), rest2, ',');
    lemma_decimal_injective(seq1 as nat, seq2 as nat);
    assert(rest1.skip(mid.len() - 1) =~= decimal(ms1 as nat) + seq![','] + end.skip(1));
    assert(rest2.skip(mid.len() - 1) =~= decimal(ms2 as nat) + seq![','] + end.skip(1));
    lemma_cut_unique(decimal(ms1 as nat), end.skip(1), decimal(ms2 as nat), end.skip(1), ',');
    lemma_decimal_injective(ms1 as nat, ms2 as nat);
}

/// The hub took an event if and only if it answered with a status code of two hundred and something.
pub proof fn law_success_is_a_code_of_the_two_hundreds(outcome: Outcome)
    ensures
        outcome.accepted() <==> (outcome matches Outcome::Answered { code, .. } && code / 100 == 2),
{
}

/// The counters that a run shows are those that it holds.
pub proof fn law_tally_shows_the_counters(run: Producer)
    ensures
        run.tally().ok == run.ok,
        run.tally().failed == run.failed,
        run.tally().total_bytes == run.total_bytes,
        run.tally().seq == run.seq,
{
}

/// A run can count an event if and only if its number and the bytes delivered fit into 64 bits after
/// it; in a well-formed run every counter then fits.
pub proof fn law_room_is_what_the_counters_need(run: Producer, body_len: u64, outcome: Outcome)
    ensures
        run.has_room(body_len, outcome) <==> {
            &&& run.seq + 1 <= u64::MAX
            &&& run.total_bytes + (if outcome.accepted() { body_len as int } else { 0 }) <= u64::MAX
        },
        run.well_formed() && run.has_room(body_len, outcome) ==> {
            &&& run.ok + 1 <= u64::MAX
            &&& run.failed + 1 <= u64::MAX
        },
{
}

/// In a well-formed run every event sent was accepted or not, and no more were sent than asked for.
pub proof fn law_well_formed_runs_add_up(run: Producer)
    requires
        run.well_formed(),
    ensures
        run.seq == run.ok + run.failed,
        run.count == 0 || run.seq <= run.count,
{
}

/// A run that has counted its events, and no more than it was asked for, is well formed.
pub proof fn law_runs_are_well_formed(run: Producer, events: Seq<(nat, bool)>)
    requires
        run.has_counted(events),
        run.count == 0 || events.len() <= run.count,
    ensures
        run.well_formed(),
        run.tally() == tally_of(events),
{
    law_tally_counts(events);
}

/// A text of digits lacks every character that is none.
proof fn lemma_decimal_lacks(n: nat, c: char)
    requires
        !('0' <= c <= '9'),
    ensures
        lacks(decimal(n), c),
{
    lemma_decimal_digits(n);
}

/// The body of an event, read back: between commas stand the number of the event behind `"seq":`, its
/// time in milliseconds behind `"sentAtMs":`, and the note.
pub proof fn law_event_body_reads_back(seq: u64, sent_at_ms: u128)
    ensures
        ({
            let parts = split(event_body(seq, sent_at_ms), ',');
            &&& parts.len() == 3
            &&& parts[0].take(7) == "{\"seq\":"@
            &&& is_numeral(parts[0].skip(7), seq as nat)
            &&& parts[1].take(11) == "\"sentAtMs\":"@
            &&& is_numeral(parts[1].skip(11), sent_at_ms as nat)
            &&& parts[2] == "\"note\":\"no partition key; expect round-robin\"}"@
        }),
{
    reveal_strlit("{\"seq\":");
    reveal_strlit(",\"sentAtMs\":");
    reveal_strlit("\"sentAtMs\":");
    reveal_strlit(",\"note\":\"no partition key; expect round-robin\"}");
    reveal_strlit("\"note\":\"no partition key; expect round-robin\"}");
    let comma = seq![','];
    let number = decimal(seq as nat);
    let time = decimal(sent_at_ms as nat);
    let first = "{\"seq\":"@ + number;
    let second = "\"sentAtMs\":"@ + time;
    let third = "\"note\":\"no partition key; expect round-robin\"}"@;
    assert(",\"sentAtMs\":"@ =~= comma + "\"sentAtMs\":"@);
    assert(",\"note\":\"no partition key; expect round-robin\"}"@ =~= comma + third);
    assert(event_body(seq, sent_at_ms) =~= first + comma + (second + comma + third));
    lemma_decimal_lacks(seq as nat, ',');
    lemma_decimal_lacks(sent_at_ms as nat, ',');
    lemma_split_concat(first, ',', second + comma + third);
    lemma_split_concat(second, ',', third);
    lemma_split_whole(first, ',');
    lemma_split_whole(second, ',');
    lemma_split_whole(third, ',');
    assert(split(event_body(seq, sent_at_ms), ',') =~= seq![first, second, third]);
    assert(first.take(7) =~= "{\"seq\":"@);
    assert(first.skip(7) =~= number);
    assert(second.take(11) =~= "\"sentAtMs\":"@);
    assert(second.skip(11) =~= time);
    law_decimal_is_the_numeral(seq as nat);
    law_decimal_is_the_numeral(sent_at_ms as nat);
}

/// A word, a space and more words.
proof fn lemma_first_word(word: Seq<char>, rest: Seq<char>)
    requires
        lacks(word, ' '),
    ensures
        split(word + seq![' '] + rest, ' ') == seq![word] + split(rest, ' '),
{
    lemma_split_concat(word, ' ', rest);
    lemma_split_whole(word, ' ');
}

/// What stands in the line after the last event behind the number of accepted events.
spec fn summary_from_accepted(tally: Tally) -> Seq<char> {
    let space = seq![' '];
    let from_bytes = decimal(tally.total_bytes) + space + ("bytes"@ + space + "delivered."@);
    "accepted,"@ + space + (decimal(tally.failed) + space + ("failed,"@ + space + from_bytes))
}

/// The line after the last event, with its spaces told apart from its words.
proof fn lemma_summary_spaces(tally: Tally)
    ensures
        tally.summary() == "\nDone."@ + seq![' '] + (decimal(tally.ok) + seq![' ']
            + summary_from_accepted(tally)),
{
    reveal_strlit("\nDone. ");
    reveal_strlit("\nDone.");
    reveal_strlit(" accepted, ");
    reveal_strlit("accepted,");
    reveal_strlit(" failed, ");
    reveal_strlit("failed,");
    reveal_strlit(" bytes delivered.");
    reveal_strlit("bytes");
    reveal_strlit("delivered.");
    let space = seq![' '];
    let from_unit = "bytes"@ + space + "delivered."@;
    assert("\nDone. "@ =~= "\nDone."@ + space);
    assert(" accepted, "@ =~= space + "accepted,"@ + space);
    assert(" failed, "@ =~= space + "failed,"@ + space);
    assert(" bytes delivered."@ =~= space + from_unit);
    let from_bytes = decimal(tally.total_bytes) + space + from_unit;
    let from_failed = "failed,"@ + space + from_bytes;
    let to_failed = "\nDone. "@ + decimal(tally.ok) + " accepted, "@ + decimal(tally.failed);
    assert(tally.summary() =~= to_failed + space + from_failed);
    assert(to_failed + space + from_failed =~= "\nDone."@ + space + (decimal(tally.ok) + space
        + summary_from_accepted(tally)));
}

/// The words of the line after the last event.
proof fn lemma_summary_words(tally: Tally)
    ensures
        split(tally.summary(), ' ') == seq![
            "\nDone."@,
            decimal(tally.ok),
            "accepted,"@,
            decimal(tally.failed),
            "failed,"@,
            decimal(tally.total_bytes),
            "bytes"@,
            "delivered."@,
        ],
{
    reveal_strlit("\nDone.");
    reveal_strlit("accepted,");
    reveal_strlit("failed,");
    reveal_strlit("bytes");
    reveal_strlit("delivered.");
    let space = seq![' '];
    let ok = decimal(tally.ok);
    let failed = decimal(tally.failed);
    let bytes = decimal(tally.total_bytes);
    lemma_decimal_lacks(tally.ok, ' ');
    lemma_decimal_lacks(tally.failed, ' ');
    lemma_decimal_lacks(tally.total_bytes, ' ');
    let from_unit = "bytes"@ + space + "delivered."@;
    let from_bytes = bytes + space + from_unit;
    let from_failed = "failed,"@ + space + from_bytes;
    let from_number = failed + space + from_failed;
    let from_accepted = "accepted,"@ + space + from_number;
    lemma_summary_spaces(tally);
    lemma_first_word("\nDone."@, ok + space + from_accepted);
    lemma_first_word(ok, from_accepted);
    lemma_first_word("accepted,"@, from_number);
    lemma_first_word(failed, from_failed);
    lemma_first_word("failed,"@, from_bytes);
    lemma_first_word(bytes, from_unit);
    lemma_first_word("bytes"@, "delivered."@);
    lemma_split_whole("delivered."@, ' ');
}

/// The line after a run, word by word: before `accepted` stands how many of the events were accepted,
/// before `failed` how many were not, and before `bytes delivered` the sum of the sizes of the
/// accepted ones.
pub proof fn law_summary_tells_the_run(run: Producer, events: Seq<(nat, bool)>)
    requires
        run.has_counted(events),
    ensures
        ({
            let words = split(run.tally().summary(), ' ');
            &&& words.len() == 8
            &&& words[0] == "\nDone."@
            &&& is_numeral(words[1], events.filter(|e: (nat, bool)| e.1).len())
            &&& words[2] == "accepted,"@
            &&& is_numeral(words[3], events.filter(|e: (nat, bool)| !e.1).len())
            &&& words[4] == "failed,"@
            &&& is_numeral(words[5], accepted_bytes(events))
            &&& words[6] == "bytes"@
            &&& words[7] == "delivered."@
        }),
{
    lemma_summary_words(run.tally());
    law_decimal_is_the_numeral(run.tally().ok);
    law_decimal_is_the_numeral(run.tally().failed);
    law_decimal_is_the_numeral(run.tally().total_bytes);
}

/// The bytes delivered by a run and one more event.
pub proof fn law_accepted_bytes_add_up(events: Seq<(nat, bool)>, body_len: nat, accepted: bool)
    ensures
        accepted_bytes(Seq::empty()) == 0,
        accepted_bytes(events.push((body_len, accepted))) == accepted_bytes(events) + (if accepted {
            body_len
        } else {
            0
        }),
{
    assert(events.push((body_len, accepted)).drop_last() =~= events);
}

/// The line on an event begins with its number, right-aligned in six columns, and an arrow, whatever
/// became of it. Behind the arrow stands the status that the hub answered with, or else the reason why
/// there was no answer. For an accepted event its size follows, then the bytes accepted so far, and
/// how many events these are.
pub proof fn law_report_tells_the_event(
    before: Seq<(nat, bool)>,
    body_len: nat,
    outcome: Outcome,
    number: Seq<char>,
    size: Seq<char>,
    total: Seq<char>,
    accepted: Seq<char>,
)
    requires
        is_numeral(number, before.len()),
        is_numeral(size, body_len),
        is_numeral(total, accepted_bytes(before.push((body_len, outcome.accepted())))),
        is_numeral(
            accepted,
            before.push((body_len, outcome.accepted())).filter(|e: (nat, bool)| e.1).len(),
        ),
    ensures
        ({
            let report = event_report(
                before.len(),
                body_len,
                outcome,
                tally_of(before.push((body_len, outcome.accepted()))),
            );
            let spaces = repeated(
                seq![' '],
                (if number.len() < 6 {
                    6 - number.len()
                } else {
                    0
                }) as nat,
            );
            let head = "seq "@ + spaces + number + " -> "@;
            match outcome {
                Outcome::Answered { code, status } => if 200 <= code < 300 {
                    report == ReportView::Success(
                        head + status@ + " | +"@ + size + " B | total "@ + total + " B / "@ + accepted
                            + " events"@,
                    )
                } else {
                    report == ReportView::Failure(head + status@ + " (NOT accepted)"@)
                },
                Outcome::Failed { error } => report == ReportView::Failure(
                    head + "error: "@ + error@,
                ),
            }
        }),
{
    let events = before.push((body_len, outcome.accepted()));
    law_tally_counts(events);
    law_numeral_is_unique(number, before.len());
    law_numeral_is_unique(size, body_len);
    law_numeral_is_unique(total, tally_of(events).total_bytes);
    law_numeral_is_unique(accepted, tally_of(events).ok);
    law_right_alignment(number, 6);
    let spaces = repeated(seq![' '], (if number.len() < 6 { 6 - number.len() } else { 0 }) as nat);
    lemma_repeated_spaces((if number.len() < 6 { 6 - number.len() } else { 0 }) as nat);
    assert(right_aligned(number, 6) =~= spaces + number);
    let head = "seq "@ + spaces + number + " -> "@;
    assert("seq "@ + right_aligned(number, 6) + " -> "@ =~= head);
}

/// Spaces in a row.
proof fn lemma_repeated_spaces(times: nat)
    ensures
        repeated(seq![' '], times) == Seq::new(times, |i: int| ' '),
    decreases times,
{
    if times > 0 {
        lemma_repeated_spaces((times - 1) as nat);
    }
    assert(repeated(seq![' '], times) =~= Seq::new(times, |i: int| ' '));
}

/// The line before the first event names the resource, and how many events will be sent unless there
/// is no limit.
pub proof fn law_opening_line_tells_the_run(count: u32, number: Seq<char>, resource_uri: Seq<char>)
    requires
        is_numeral(number, count as nat),
    ensures
        opening_text(0, resource_uri) == "Producing continuously to "@ + resource_uri
            + " (no partition key -> broker round-robins). Ctrl-C to stop.\n"@,
        count > 0 ==> opening_text(count, resource_uri) == "Producing "@ + number + " event(s) to "@
            + resource_uri + " (no partition key -> broker round-robins)\n"@,
{
    law_numeral_is_unique(number, count as nat);
}

/// A report is seen as it is.
pub proof fn law_report_is_seen_whole(report: Report)
    ensures
        report matches Report::Success(line) ==> report@ == ReportView::Success(line@),
        report matches Report::Failure(line) ==> report@ == ReportView::Failure(line@),
{
}

}
