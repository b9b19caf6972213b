//! Event lines of the track ranking, one JSON object each, for timeline visualisation.
//!
//! A line is made only while logging is on; printing it is up to the caller.

use vstd::prelude::*;
use crate::{bytes, text};

verus! {

/// Makes event lines, with times relative to its start.
#[derive(Clone, Copy, Debug, PartialEq, Eq, Structural)]
pub struct TopNEventLogger {
    pub enabled: bool,
    pub start_ms: u64,
}

/// The part that every line begins with.
pub open spec fn event_head(ts_ms: u64) -> Seq<char> {
    "TOPN_EVENT:{\"ts_ms\":"@ + text::decimal(ts_ms as nat)
}

pub open spec fn track_registered_line(
    ts_ms: u64,
    track: Seq<char>,
    value: u64,
    publisher_id: u64,
) -> Seq<char> {
    event_head(ts_ms) + ",\"event\":\"track_registered\",\"track\":\""@ + text::json_text(
        track,
    ) + "\",\"value\":"@ + text::decimal(value as nat) + ",\"publisher_id\":"@ + text::decimal(publisher_id as nat)
        + "}"@
}

pub open spec fn value_updated_line(
    ts_ms: u64,
    track: Seq<char>,
    old_value: u64,
    new_value: u64,
    publisher_id: u64,
) -> Seq<char> {
    event_head(ts_ms) + ",\"event\":\"value_updated\",\"track\":\""@ + text::json_text(track)
        + "\",\"old_value\":"@ + text::decimal(old_value as nat) + ",\"new_value\":"@
        + text::decimal(new_value as nat) + ",\"publisher_id\":"@ + text::decimal(
        publisher_id as nat,
    ) + "}"@
}

pub open spec fn track_removed_line(ts_ms: u64, track: Seq<char>, publisher_id: u64) -> Seq<char> {
    event_head(ts_ms) + ",\"event\":\"track_removed\",\"track\":\""@ + text::json_text(track)
        + "\",\"publisher_id\":"@ + text::decimal(publisher_id as nat) + "}"@
}

/// The first `n` selected tracks, each with its value, between commas.
pub open spec fn selected_list(selected: Seq<(String, u64)>, n: nat) -> Seq<char>
    decreases n,
{
    if n == 0 {
        Seq::empty()
    } else {
        let before = selected_list(selected, (n - 1) as nat);
        let comma = if n == 1 {
            ""@
        } else {
            ","@
        };
        before + comma + "{\"track\":\""@ + text::json_text(selected[n - 1].0@) + "\",\"value\":"@ + text::decimal(
            selected[n - 1].1 as nat,
        ) + "}"@
    }
}

pub open spec fn top_n_query_line(
    ts_ms: u64,
    subscriber_id: u64,
    n: u8,
    selected: Seq<(String, u64)>,
    excluded_self: Option<u64>,
) -> Seq<char> {
    event_head(ts_ms) + ",\"event\":\"top_n_query\",\"subscriber_id\":"@ + text::decimal(
        subscriber_id as nat,
    ) + ",\"n\":"@ + text::decimal(n as nat) + ",\"selected\":["@ + selected_list(
        selected,
        selected.len(),
    ) + "],\"excluded_self\":"@ + match excluded_self {
        Some(id) => text::decimal(id as nat),
        None => "null"@,
    } + "}"@
}

impl TopNEventLogger {
    /// A logger that starts now.
    pub fn new(enabled: bool, now_ms: u64) -> (r: Self)
        ensures
            r == (TopNEventLogger { enabled, start_ms: now_ms }),
    {
        TopNEventLogger { enabled, start_ms: now_ms }
    }

    /// Turns logging on or off.
    pub fn set_enabled(&mut self, enabled: bool)
        ensures
            *final(self) == (TopNEventLogger { enabled, ..*old(self) }),
    {
        self.enabled = enabled;
    }

    /// Whether logging is on.
    pub fn is_enabled(&self) -> (r: bool)
        ensures
            r == self.enabled,
    {
        self.enabled
    }

    /// The time since the start.
    pub open spec fn elapsed(self, now_ms: u64) -> u64 {
        if now_ms > self.start_ms {
            (now_ms - self.start_ms) as u64
        } else {
            0
        }
    }

    /// The time since the start in milliseconds.
    pub fn ts_ms(&self, now_ms: u64) -> (r: u64)
        ensures
            r == self.elapsed(now_ms),
    {
        if now_ms > self.start_ms {
            now_ms - self.start_ms
        } else {
            0
        }
    }

    fn head(&self, now_ms: u64) -> (r: String)
        ensures
            r@ == event_head(self.elapsed(now_ms)),
    {
        let mut out = "TOPN_EVENT:{\"ts_ms\":".to_owned();
        text::push_decimal(&mut out, self.ts_ms(now_ms));
        out
    }

    /// The line for a track that was registered.
    pub fn log_track_registered(
        &self,
        track_name: &str,
        value: u64,
        publisher_id: u64,
        now_ms: u64,
    ) -> (r: Option<String>)
        ensures
            match r {
                Some(line) => self.enabled && line@ == track_registered_line(
                    self.elapsed(now_ms),
                    track_name@,
                    value,
                    publisher_id,
                ),
                None => !self.enabled,
            },
    {
        if !self.enabled {
            return None;
        }
        let mut out = self.head(now_ms);
        out.append(",\"event\":\"track_registered\",\"track\":\"");
        text::push_json(&mut out, track_name);
        out.append("\",\"value\":");
        text::push_decimal(&mut out, value);
        out.append(",\"publisher_id\":");
        text::push_decimal(&mut out, publisher_id);
        out.append("}");
        Some(out)
    }

    /// The line for a value that changed.
    pub fn log_value_updated(
        &self,
        track_name: &str,
        old_value: u64,
        new_value: u64,
        publisher_id: u64,
        now_ms: u64,
    ) -> (r: Option<String>)
        ensures
            match r {
                Some(line) => self.enabled && line@ == value_updated_line(
                    self.elapsed(now_ms),
                    track_name@,
                    old_value,
                    new_value,
                    publisher_id,
                ),
                None => !self.enabled,
            },
    {
        if !self.enabled {
            return None;
        }
        let mut out = self.head(now_ms);
        out.append(",\"event\":\"value_updated\",\"track\":\"");
        text::push_json(&mut out, track_name);
        out.append("\",\"old_value\":");
        text::push_decimal(&mut out, old_value);
        out.append(",\"new_value\":");
        text::push_decimal(&mut out, new_value);
        out.append(",\"publisher_id\":");
        text::push_decimal(&mut out, publisher_id);
        out.append("}");
        Some(out)
    }

    /// The line for a session that asked for its top `n`.
    pub fn log_top_n_query(
        &self,
        subscriber_id: u64,
        n: u8,
        selected: &[(String, u64)],
        excluded_self: Option<u64>,
        now_ms: u64,
    ) -> (r: Option<String>)
        ensures
            match r {
                Some(line) => self.enabled && line@ == top_n_query_line(
                    self.elapsed(now_ms),
                    subscriber_id,
                    n,
                    selected@,
                    excluded_self,
                ),
                None => !self.enabled,
            },
    {
        if !self.enabled {
            return None;
        }
        let mut out = self.head(now_ms);
        out.append(",\"event\":\"top_n_query\",\"subscriber_id\":");
        text::push_decimal(&mut out, subscriber_id);
        out.append(",\"n\":");
        text::push_decimal(&mut out, n as u64);
        out.append(",\"selected\":[");
        let ghost before = out@;
        let mut i: usize = 0;
        assert(before + selected_list(selected@, 0) =~= before);
        while i < selected.len()
            invariant
                i <= selected@.len(),
                out@ == before + selected_list(selected@, i as nat),
            decreases selected@.len() - i,
        {
            let ghost so_far = out@;
            if i > 0 {
                out.append(",");
            }
            proof {
                reveal_strlit("");
            }
            out.append("{\"track\":\"");
            text::push_json(&mut out, selected[i].0.as_str());
            out.append("\",\"value\":");
            text::push_decimal(&mut out, selected[i].1);
            out.append("}");
            i += 1;
            assert(out@ =~= before + selected_list(selected@, i as nat));
        }
        out.append("],\"excluded_self\":");
        match excluded_self {
            Some(id) => text::push_decimal(&mut out, id),
            None => out.append("null"),
        }
        out.append("}");
        assert(out@ =~= top_n_query_line(
            self.elapsed(now_ms),
            subscriber_id,
            n,
            selected@,
            excluded_self,
        ));
        Some(out)
    }

    /// The line for a track that was removed.
    pub fn log_track_removed(&self, track_name: &str, publisher_id: u64, now_ms: u64) -> (r: Option<
        String,
    >)
        ensures
            match r {
                Some(line) => self.enabled && line@ == track_removed_line(
                    self.elapsed(now_ms),
                    track_name@,
                    publisher_id,
                ),
                None => !self.enabled,
            },
    {
        if !self.enabled {
            return None;
        }
        let mut out = self.head(now_ms);
        out.append(",\"event\":\"track_removed\",\"track\":\"");
        text::push_json(&mut out, track_name);
        out.append("\",\"publisher_id\":");
        text::push_decimal(&mut out, publisher_id);
        out.append("}");
        Some(out)
    }
}

/// What happens to a track in a ranking.
#[derive(Clone, Copy, Debug, PartialEq, Eq, Structural)]
pub enum TrackEvent {
    Registered { value: u64, publisher_id: u64 },
    ValueUpdated { old_value: u64, new_value: u64, publisher_id: u64 },
    Removed { publisher_id: u64 },
}

/// The line for an event. A track that is registered is named by its path, with its namespace.
pub open spec fn event_line(
    ts_ms: u64,
    path: Seq<char>,
    track_name: Seq<char>,
    event: TrackEvent,
) -> Seq<char> {
    match event {
        TrackEvent::Registered { value, publisher_id } => track_registered_line(
            ts_ms,
            path,
            value,
            publisher_id,
        ),
        TrackEvent::ValueUpdated { old_value, new_value, publisher_id } => value_updated_line(
            ts_ms,
            track_name,
            old_value,
            new_value,
            publisher_id,
        ),
        TrackEvent::Removed { publisher_id } => track_removed_line(ts_ms, track_name, publisher_id),
    }
}

impl TopNEventLogger {
    /// The line for what happened to a track.
    pub fn log_event(&self, path: &str, track_name: &str, event: TrackEvent, now_ms: u64) -> (r:
        Option<String>)
        ensures
            match r {
                Some(line) => self.enabled && line@ == event_line(
                    self.elapsed(now_ms),
                    path@,
                    track_name@,
                    event,
                ),
                None => !self.enabled,
            },
    {
        match event {
            TrackEvent::Registered { value, publisher_id } => self.log_track_registered(
                path,
                value,
                publisher_id,
                now_ms,
            ),
            TrackEvent::ValueUpdated { old_value, new_value, publisher_id } => {
                self.log_value_updated(track_name, old_value, new_value, publisher_id, now_ms)
            },
            TrackEvent::Removed { publisher_id } => self.log_track_removed(
                track_name,
                publisher_id,
                now_ms,
            ),
        }
    }
}

/// The time of an event is what has passed since the start. A clock that went back tells no time.
pub proof fn law_time_is_since_the_start(logger: TopNEventLogger, now_ms: u64)
    ensures
        now_ms >= logger.start_ms ==> logger.start_ms + logger.elapsed(now_ms) == now_ms,
        now_ms <= logger.start_ms ==> logger.elapsed(now_ms) == 0,
{
}

/// What a text holds is held where more stands behind it, and so is its beginning.
proof fn lemma_longer(head: Seq<char>, text: Seq<char>, part: Seq<char>, rest: Seq<char>)
    requires
        head.is_prefix_of(text),
        bytes::contains_run(text, part),
    ensures
        head.is_prefix_of(text + rest),
        bytes::contains_run(text + rest, part),
{
    let at = choose|at: int| #[trigger] bytes::occurs_at(text, part, at);
    let whole = text + rest;
    assert(whole.subrange(at, at + part.len()) =~= text.subrange(at, at + part.len()));
    assert(bytes::occurs_at(whole, part, at));
    assert(whole.subrange(0, head.len() as int) =~= text.subrange(0, head.len() as int));
}

/// What a text holds is held where more stands before it.
proof fn lemma_behind(before: Seq<char>, text: Seq<char>, part: Seq<char>)
    requires
        bytes::contains_run(text, part),
    ensures
        before.is_prefix_of(before + text),
        bytes::contains_run(before + text, part),
{
    let at = choose|at: int| #[trigger] bytes::occurs_at(text, part, at);
    let whole = before + text;
    let from = before.len() + at;
    assert(whole.subrange(from, from + part.len()) =~= text.subrange(at, at + part.len()));
    assert(bytes::occurs_at(whole, part, from));
    assert(whole.subrange(0, before.len() as int) =~= before);
}

/// A value is held with the end of what stands before it and the start of what stands behind it.
proof fn lemma_spans(
    head: Seq<char>,
    front: Seq<char>,
    a: Seq<char>,
    name: Seq<char>,
    value: Seq<char>,
    end: Seq<char>,
    b: Seq<char>,
)
    requires
        head.is_prefix_of(front),
    ensures
        head.is_prefix_of(front + (a + name) + value + (end + b)),
        bytes::contains_run(front + (a + name) + value + (end + b), name + value + end),
{
    let whole = front + (a + name) + value + (end + b);
    let part = name + value + end;
    let at = (front.len() + a.len()) as int;
    assert(whole.subrange(at, at + part.len()) =~= part);
    assert(bytes::occurs_at(whole, part, at));
    assert(whole.subrange(0, head.len() as int) =~= front.subrange(0, head.len() as int));
}

proof fn lemma_registered_line(
    ts_ms: u64,
    track: Seq<char>,
    value: u64,
    publisher_id: u64,
)
    ensures
        event_head(ts_ms).is_prefix_of(track_registered_line(ts_ms, track, value, publisher_id)),
        bytes::contains_run(track_registered_line(ts_ms, track, value, publisher_id), "\"event\":\"track_registered\""@),
        bytes::contains_run(track_registered_line(ts_ms, track, value, publisher_id), "\"track\":\""@ + text::json_text(track) + "\""@),
        bytes::contains_run(track_registered_line(ts_ms, track, value, publisher_id), "\"value\":"@ + text::decimal(value as nat) + ","@),
        bytes::contains_run(track_registered_line(ts_ms, track, value, publisher_id), "\"publisher_id\":"@ + text::decimal(publisher_id as nat) + "}"@),
{
    let head = event_head(ts_ms);
    let line = track_registered_line(ts_ms, track, value, publisher_id);
    let t1 = head + ",\"event\":\"track_registered\",\"track\":\""@;
    let t2 = t1 + text::json_text(track);
    let t3 = t2 + "\",\"value\":"@;
    let t4 = t3 + text::decimal(value as nat);
    let t5 = t4 + ",\"publisher_id\":"@;
    let t6 = t5 + text::decimal(publisher_id as nat);
    let t7 = t6 + "}"@;
    assert(line == t7);
    assert(bytes::contains_run(line, "\"event\":\"track_registered\""@) && head.is_prefix_of(line)) by {
        reveal_strlit(",\"event\":\"track_registered\",\"track\":\"");
        reveal_strlit(",");
        reveal_strlit("\"event\":\"track_registered\"");
        reveal_strlit(",\"track\":\"");
        assert(",\"event\":\"track_registered\",\"track\":\""@ =~= ","@ + "\"event\":\"track_registered\""@ + ",\"track\":\""@);
        bytes::law_parts_of_a_whole_are_found(","@, "\"event\":\"track_registered\""@, ",\"track\":\""@);
        lemma_behind(head, ",\"event\":\"track_registered\",\"track\":\""@, "\"event\":\"track_registered\""@);
        lemma_longer(head, t1, "\"event\":\"track_registered\""@, text::json_text(track));
        lemma_longer(head, t2, "\"event\":\"track_registered\""@, "\",\"value\":"@);
        lemma_longer(head, t3, "\"event\":\"track_registered\""@, text::decimal(value as nat));
        lemma_longer(head, t4, "\"event\":\"track_registered\""@, ",\"publisher_id\":"@);
        lemma_longer(head, t5, "\"event\":\"track_registered\""@, text::decimal(publisher_id as nat));
        lemma_longer(head, t6, "\"event\":\"track_registered\""@, "}"@);
    }
    assert(bytes::contains_run(line, "\"track\":\""@ + text::json_text(track) + "\""@)) by {
        reveal_strlit(",\"event\":\"track_registered\",\"track\":\"");
        reveal_strlit("\"track\":\"");
        reveal_strlit(",\"event\":\"track_registered\",");
        reveal_strlit("\",\"value\":");
        reveal_strlit("\"");
        reveal_strlit(",\"value\":");
        assert(",\"event\":\"track_registered\",\"track\":\""@ =~= ",\"event\":\"track_registered\","@ + "\"track\":\""@);
        assert("\",\"value\":"@ =~= "\""@ + ",\"value\":"@);
        assert(head.subrange(0, head.len() as int) =~= head);
        lemma_spans(head, head, ",\"event\":\"track_registered\","@, "\"track\":\""@, text::json_text(track), "\""@, ",\"value\":"@);
        lemma_longer(head, t3, "\"track\":\""@ + text::json_text(track) + "\""@, text::decimal(value as nat));
        lemma_longer(head, t4, "\"track\":\""@ + text::json_text(track) + "\""@, ",\"publisher_id\":"@);
        lemma_longer(head, t5, "\"track\":\""@ + text::json_text(track) + "\""@, text::decimal(publisher_id as nat));
        lemma_longer(head, t6, "\"track\":\""@ + text::json_text(track) + "\""@, "}"@);
    }
    assert(bytes::contains_run(line, "\"value\":"@ + text::decimal(value as nat) + ","@)) by {
        reveal_strlit("\",\"value\":");
        reveal_strlit("\"value\":");
        reveal_strlit("\",");
        reveal_strlit(",\"publisher_id\":");
        reveal_strlit(",");
        reveal_strlit("\"publisher_id\":");
        assert("\",\"value\":"@ =~= "\","@ + "\"value\":"@);
        assert(",\"publisher_id\":"@ =~= ","@ + "\"publisher_id\":"@);
        assert(head.is_prefix_of(t2)) by {
            assert(t2.subrange(0, head.len() as int) =~= head);
        }
        lemma_spans(head, t2, "\","@, "\"value\":"@, text::decimal(value as nat), ","@, "\"publisher_id\":"@);
        lemma_longer(head, t5, "\"value\":"@ + text::decimal(value as nat) + ","@, text::decimal(publisher_id as nat));
        lemma_longer(head, t6, "\"value\":"@ + text::decimal(value as nat) + ","@, "}"@);
    }
    assert(bytes::contains_run(line, "\"publisher_id\":"@ + text::decimal(publisher_id as nat) + "}"@)) by {
        reveal_strlit(",\"publisher_id\":");
        reveal_strlit("\"publisher_id\":");
        reveal_strlit(",");
        reveal_strlit("}");
        assert(",\"publisher_id\":"@ =~= ","@ + "\"publisher_id\":"@);
        assert("}"@ =~= "}"@ + Seq::<char>::empty());
        assert(head.is_prefix_of(t4)) by {
            assert(t4.subrange(0, head.len() as int) =~= head);
        }
        lemma_spans(head, t4, ","@, "\"publisher_id\":"@, text::decimal(publisher_id as nat), "}"@, Seq::<char>::empty());
    }
}

proof fn lemma_updated_line(
    ts_ms: u64,
    track: Seq<char>,
    old_value: u64,
    new_value: u64,
    publisher_id: u64,
)
    ensures
        event_head(ts_ms).is_prefix_of(value_updated_line(ts_ms, track, old_value, new_value, publisher_id)),
        bytes::contains_run(value_updated_line(ts_ms, track, old_value, new_value, publisher_id), "\"event\":\"value_updated\""@),
        bytes::contains_run(value_updated_line(ts_ms, track, old_value, new_value, publisher_id), "\"track\":\""@ + text::json_text(track) + "\""@),
        bytes::contains_run(value_updated_line(ts_ms, track, old_value, new_value, publisher_id), "\"old_value\":"@ + text::decimal(old_value as nat) + ","@),
        bytes::contains_run(value_updated_line(ts_ms, track, old_value, new_value, publisher_id), "\"new_value\":"@ + text::decimal(new_value as nat) + ","@),
        bytes::contains_run(value_updated_line(ts_ms, track, old_value, new_value, publisher_id), "\"publisher_id\":"@ + text::decimal(publisher_id as nat) + "}"@),
{
    let head = event_head(ts_ms);
    let line = value_updated_line(ts_ms, track, old_value, new_value, publisher_id);
    let t1 = head + ",\"event\":\"value_updated\",\"track\":\""@;
    let t2 = t1 + text::json_text(track);
    let t3 = t2 + "\",\"old_value\":"@;
    let t4 = t3 + text::decimal(old_value as nat);
    let t5 = t4 + ",\"new_value\":"@;
    let t6 = t5 + text::decimal(new_value as nat);
    let t7 = t6 + ",\"publisher_id\":"@;
    let t8 = t7 + text::decimal(publisher_id as nat);
    let t9 = t8 + "}"@;
    assert(line == t9);
    assert(bytes::contains_run(line, "\"event\":\"value_updated\""@) && head.is_prefix_of(line)) by {
        reveal_strlit(",\"event\":\"value_updated\",\"track\":\"");
        reveal_strlit(",");
        reveal_strlit("\"event\":\"value_updated\"");
        reveal_strlit(",\"track\":\"");
        assert(",\"event\":\"value_updated\",\"track\":\""@ =~= ","@ + "\"event\":\"value_updated\""@ + ",\"track\":\""@);
        bytes::law_parts_of_a_whole_are_found(","@, "\"event\":\"value_updated\""@, ",\"track\":\""@);
        lemma_behind(head, ",\"event\":\"value_updated\",\"track\":\""@, "\"event\":\"value_updated\""@);
        lemma_longer(head, t1, "\"event\":\"value_updated\""@, text::json_text(track));
        lemma_longer(head, t2, "\"event\":\"value_updated\""@, "\",\"old_value\":"@);
        lemma_longer(head, t3, "\"event\":\"value_updated\""@, text::decimal(old_value as nat));
        lemma_longer(head, t4, "\"event\":\"value_updated\""@, ",\"new_value\":"@);
        lemma_longer(head, t5, "\"event\":\"value_updated\""@, text::decimal(new_value as nat));
        lemma_longer(head, t6, "\"event\":\"value_updated\""@, ",\"publisher_id\":"@);
        lemma_longer(head, t7, "\"event\":\"value_updated\""@, text::decimal(publisher_id as nat));
        lemma_longer(head, t8, "\"event\":\"value_updated\""@, "}"@);
    }
    assert(bytes::contains_run(line, "\"track\":\""@ + text::json_text(track) + "\""@)) by {
        reveal_strlit(",\"event\":\"value_updated\",\"track\":\"");
        reveal_strlit("\"track\":\"");
        reveal_strlit(",\"event\":\"value_updated\",");
        reveal_strlit("\",\"old_value\":");
        reveal_strlit("\"");
        reveal_strlit(",\"old_value\":");
        assert(",\"event\":\"value_updated\",\"track\":\""@ =~= ",\"event\":\"value_updated\","@ + "\"track\":\""@);
        assert("\",\"old_value\":"@ =~= "\""@ + ",\"old_value\":"@);
        assert(head.subrange(0, head.len() as int) =~= head);
        lemma_spans(head, head, ",\"event\":\"value_updated\","@, "\"track\":\""@, text::json_text(track), "\""@, ",\"old_value\":"@);
        lemma_longer(head, t3, "\"track\":\""@ + text::json_text(track) + "\""@, text::decimal(old_value as nat));
        lemma_longer(head, t4, "\"track\":\""@ + text::json_text(track) + "\""@, ",\"new_value\":"@);
        lemma_longer(head, t5, "\"track\":\""@ + text::json_text(track) + "\""@, text::decimal(new_value as nat));
        lemma_longer(head, t6, "\"track\":\""@ + text::json_text(track) + "\""@, ",\"publisher_id\":"@);
        lemma_longer(head, t7, "\"track\":\""@ + text::json_text(track) + "\""@, text::decimal(publisher_id as nat));
        lemma_longer(head, t8, "\"track\":\""@ + text::json_text(track) + "\""@, "}"@);
    }
    assert(bytes::contains_run(line, "\"old_value\":"@ + text::decimal(old_value as nat) + ","@)) by {
        reveal_strlit("\",\"old_value\":");
        reveal_strlit("\"old_value\":");
        reveal_strlit("\",");
        reveal_strlit(",\"new_value\":");
        reveal_strlit(",");
        reveal_strlit("\"new_value\":");
        assert("\",\"old_value\":"@ =~= "\","@ + "\"old_value\":"@);
        assert(",\"new_value\":"@ =~= ","@ + "\"new_value\":"@);
        assert(head.is_prefix_of(t2)) by {
            assert(t2.subrange(0, head.len() as int) =~= head);
        }
        lemma_spans(head, t2, "\","@, "\"old_value\":"@, text::decimal(old_value as nat), ","@, "\"new_value\":"@);
        lemma_longer(head, t5, "\"old_value\":"@ + text::decimal(old_value as nat) + ","@, text::decimal(new_value as nat));
        lemma_longer(head, t6, "\"old_value\":"@ + text::decimal(old_value as nat) + ","@, ",\"publisher_id\":"@);
        lemma_longer(head, t7, "\"old_value\":"@ + text::decimal(old_value as nat) + ","@, text::decimal(publisher_id as nat));
        lemma_longer(head, t8, "\"old_value\":"@ + text::decimal(old_value as nat) + ","@, "}"@);
    }
    assert(bytes::contains_run(line, "\"new_value\":"@ + text::decimal(new_value as nat) + ","@)) by {
        reveal_strlit(",\"new_value\":");
        reveal_strlit("\"new_value\":");
        reveal_strlit(",");
        reveal_strlit(",\"publisher_id\":");
        reveal_strlit("\"publisher_id\":");
        assert(",\"new_value\":"@ =~= ","@ + "\"new_value\":"@);
        assert(",\"publisher_id\":"@ =~= ","@ + "\"publisher_id\":"@);
        assert(head.is_prefix_of(t4)) by {
            assert(t4.subrange(0, head.len() as int) =~= head);
        }
        lemma_spans(head, t4, ","@, "\"new_value\":"@, text::decimal(new_value as nat), ","@, "\"publisher_id\":"@);
        lemma_longer(head, t7, "\"new_value\":"@ + text::decimal(new_value as nat) + ","@, text::decimal(publisher_id as nat));
        lemma_longer(head, t8, "\"new_value\":"@ + text::decimal(new_value as nat) + ","@, "}"@);
    }
    assert(bytes::contains_run(line, "\"publisher_id\":"@ + text::decimal(publisher_id as nat) + "}"@)) by {
        reveal_strlit(",\"publisher_id\":");
        reveal_strlit("\"publisher_id\":");
        reveal_strlit(",");
        reveal_strlit("}");
        assert(",\"publisher_id\":"@ =~= ","@ + "\"publisher_id\":"@);
        assert("}"@ =~= "}"@ + Seq::<char>::empty());
        assert(head.is_prefix_of(t6)) by {
            assert(t6.subrange(0, head.len() as int) =~= head);
        }
        lemma_spans(head, t6, ","@, "\"publisher_id\":"@, text::decimal(publisher_id as nat), "}"@, Seq::<char>::empty());
    }
}

proof fn lemma_removed_line(ts_ms: u64, track: Seq<char>, publisher_id: u64)
    ensures
        event_head(ts_ms).is_prefix_of(track_removed_line(ts_ms, track, publisher_id)),
        bytes::contains_run(track_removed_line(ts_ms, track, publisher_id), "\"event\":\"track_removed\""@),
        bytes::contains_run(track_removed_line(ts_ms, track, publisher_id), "\"track\":\""@ + text::json_text(track) + "\""@),
        bytes::contains_run(track_removed_line(ts_ms, track, publisher_id), "\"publisher_id\":"@ + text::decimal(publisher_id as nat) + "}"@),
{
    let head = event_head(ts_ms);
    let line = track_removed_line(ts_ms, track, publisher_id);
    let t1 = head + ",\"event\":\"track_removed\",\"track\":\""@;
    let t2 = t1 + text::json_text(track);
    let t3 = t2 + "\",\"publisher_id\":"@;
    let t4 = t3 + text::decimal(publisher_id as nat);
    let t5 = t4 + "}"@;
    assert(line == t5);
    assert(bytes::contains_run(line, "\"event\":\"track_removed\""@) && head.is_prefix_of(line)) by {
        reveal_strlit(",\"event\":\"track_removed\",\"track\":\"");
        reveal_strlit(",");
        reveal_strlit("\"event\":\"track_removed\"");
        reveal_strlit(",\"track\":\"");
        assert(",\"event\":\"track_removed\",\"track\":\""@ =~= ","@ + "\"event\":\"track_removed\""@ + ",\"track\":\""@);
        bytes::law_parts_of_a_whole_are_found(","@, "\"event\":\"track_removed\""@, ",\"track\":\""@);
        lemma_behind(head, ",\"event\":\"track_removed\",\"track\":\""@, "\"event\":\"track_removed\""@);
        lemma_longer(head, t1, "\"event\":\"track_removed\""@, text::json_text(track));
        lemma_longer(head, t2, "\"event\":\"track_removed\""@, "\",\"publisher_id\":"@);
        lemma_longer(head, t3, "\"event\":\"track_removed\""@, text::decimal(publisher_id as nat));
        lemma_longer(head, t4, "\"event\":\"track_removed\""@, "}"@);
    }
    assert(bytes::contains_run(line, "\"track\":\""@ + text::json_text(track) + "\""@)) by {
        reveal_strlit(",\"event\":\"track_removed\",\"track\":\"");
        reveal_strlit("\"track\":\"");
        reveal_strlit(",\"event\":\"track_removed\",");
        reveal_strlit("\",\"publisher_id\":");
        reveal_strlit("\"");
        reveal_strlit(",\"publisher_id\":");
        assert(",\"event\":\"track_removed\",\"track\":\""@ =~= ",\"event\":\"track_removed\","@ + "\"track\":\""@);
        assert("\",\"publisher_id\":"@ =~= "\""@ + ",\"publisher_id\":"@);
        assert(head.subrange(0, head.len() as int) =~= head);
        lemma_spans(head, head, ",\"event\":\"track_removed\","@, "\"track\":\""@, text::json_text(track), "\""@, ",\"publisher_id\":"@);
        lemma_longer(head, t3, "\"track\":\""@ + text::json_text(track) + "\""@, text::decimal(publisher_id as nat));
        lemma_longer(head, t4, "\"track\":\""@ + text::json_text(track) + "\""@, "}"@);
    }
    assert(bytes::contains_run(line, "\"publisher_id\":"@ + text::decimal(publisher_id as nat) + "}"@)) by {
        reveal_strlit("\",\"publisher_id\":");
        reveal_strlit("\"publisher_id\":");
        reveal_strlit("\",");
        reveal_strlit("}");
        assert("\",\"publisher_id\":"@ =~= "\","@ + "\"publisher_id\":"@);
        assert("}"@ =~= "}"@ + Seq::<char>::empty());
        assert(head.is_prefix_of(t2)) by {
            assert(t2.subrange(0, head.len() as int) =~= head);
        }
        lemma_spans(head, t2, "\","@, "\"publisher_id\":"@, text::decimal(publisher_id as nat), "}"@, Seq::<char>::empty());
    }
}

/// Every line begins with the time, and holds what happened as an object: the event, the track, the
/// publisher, and the values, each behind its name.
pub proof fn law_lines_tell_what_happened(
    ts_ms: u64,
    path: Seq<char>,
    track_name: Seq<char>,
    event: TrackEvent,
)
    ensures
        ({
            let line = event_line(ts_ms, path, track_name, event);
            let head = "TOPN_EVENT:{\"ts_ms\":"@ + text::decimal(ts_ms as nat);
            &&& head.is_prefix_of(line)
            &&& match event {
                TrackEvent::Registered { value, publisher_id } => bytes::contains_run(
                    line,
                    "\"track\":\""@ + text::json_text(path) + "\""@,
                ) && bytes::contains_run(line, "\"value\":"@ + text::decimal(value as nat) + ","@)
                    && bytes::contains_run(
                    line,
                    "\"publisher_id\":"@ + text::decimal(publisher_id as nat) + "}"@,
                ) && bytes::contains_run(line, "\"event\":\"track_registered\""@),
                TrackEvent::ValueUpdated { old_value, new_value, publisher_id } => {
                    bytes::contains_run(
                        line,
                        "\"track\":\""@ + text::json_text(track_name) + "\""@,
                    ) && bytes::contains_run(
                        line,
                        "\"old_value\":"@ + text::decimal(old_value as nat) + ","@,
                    ) && bytes::contains_run(
                        line,
                        "\"new_value\":"@ + text::decimal(new_value as nat) + ","@,
                    ) && bytes::contains_run(
                        line,
                        "\"publisher_id\":"@ + text::decimal(publisher_id as nat) + "}"@,
                    ) && bytes::contains_run(line, "\"event\":\"value_updated\""@)
                },
                TrackEvent::Removed { publisher_id } => bytes::contains_run(
                    line,
                    "\"track\":\""@ + text::json_text(track_name) + "\""@,
                ) && bytes::contains_run(
                    line,
                    "\"publisher_id\":"@ + text::decimal(publisher_id as nat) + "}"@,
                ) && bytes::contains_run(line, "\"event\":\"track_removed\""@),
            }
        }),
{
    match event {
        TrackEvent::Registered { value, publisher_id } => {
            lemma_registered_line(ts_ms, path, value, publisher_id);
        },
        TrackEvent::ValueUpdated { old_value, new_value, publisher_id } => {
            lemma_updated_line(ts_ms, track_name, old_value, new_value, publisher_id);
        },
        TrackEvent::Removed { publisher_id } => {
            lemma_removed_line(ts_ms, track_name, publisher_id);
        },
    }
}

/// Every selected track is listed with its value, in the order of the selection.
pub proof fn law_selected_tracks_are_listed(selected: Seq<(String, u64)>, n: nat, i: int)
    requires
        0 <= i < n <= selected.len(),
    ensures
        bytes::contains_run(
            selected_list(selected, n),
            "{\"track\":\""@ + text::json_text(selected[i].0@) + "\",\"value\":"@ + text::decimal(
                selected[i].1 as nat,
            ) + "}"@,
        ),
        selected_list(selected, (n - 1) as nat).is_prefix_of(selected_list(selected, n)),
    decreases n,
{
    let before = selected_list(selected, (n - 1) as nat);
    let comma = if n == 1 {
        ""@
    } else {
        ","@
    };
    let name = text::json_text(selected[n - 1].0@);
    let value = text::decimal(selected[n - 1].1 as nat);
    let t1 = before + comma;
    let t2 = t1 + "{\"track\":\""@;
    let t3 = t2 + name;
    let t4 = t3 + "\",\"value\":"@;
    let t5 = t4 + value;
    let t6 = t5 + "}"@;
    assert(selected_list(selected, n) == t6);
    assert(before.subrange(0, before.len() as int) =~= before);
    assert(t1.subrange(0, before.len() as int) =~= before);
    let part = "{\"track\":\""@ + text::json_text(selected[i].0@) + "\",\"value\":"@
        + text::decimal(selected[i].1 as nat) + "}"@;
    if i == n - 1 {
        assert(t6 =~= t1 + part);
        bytes::law_parts_of_a_whole_are_found(t1, part, Seq::empty());
        assert(t6 =~= t1 + part + Seq::<char>::empty());
        assert(t6.subrange(0, before.len() as int) =~= before);
    } else {
        law_selected_tracks_are_listed(selected, (n - 1) as nat, i);
        lemma_longer(before, before, part, comma);
        lemma_longer(before, t1, part, "{\"track\":\""@);
        lemma_longer(before, t2, part, name);
        lemma_longer(before, t3, part, "\",\"value\":"@);
        lemma_longer(before, t4, part, value);
        lemma_longer(before, t5, part, "}"@);
    }
}

/// The line of a query tells who asks for how many, what was selected, and whose own tracks were
/// left out, if any.
pub proof fn law_query_tells_who_asked_for_what(
    ts_ms: u64,
    subscriber_id: u64,
    n: u8,
    selected: Seq<(String, u64)>,
    excluded_self: Option<u64>,
)
    ensures
        ({
            let line = top_n_query_line(ts_ms, subscriber_id, n, selected, excluded_self);
            let head = "TOPN_EVENT:{\"ts_ms\":"@ + text::decimal(ts_ms as nat);
            &&& head.is_prefix_of(line)
            &&& bytes::contains_run(
                line,
                "\"subscriber_id\":"@ + text::decimal(subscriber_id as nat) + ","@,
            )
            &&& bytes::contains_run(line, "\"n\":"@ + text::decimal(n as nat) + ","@)
            &&& bytes::contains_run(
                line,
                "\"selected\":["@ + selected_list(selected, selected.len()) + "]"@,
            )
            &&& match excluded_self {
                Some(id) => bytes::ends_with(
                    line,
                    "\"excluded_self\":"@ + text::decimal(id as nat) + "}"@,
                ),
                None => bytes::ends_with(line, "\"excluded_self\":null}"@),
            }
        }),
{
    let line = top_n_query_line(ts_ms, subscriber_id, n, selected, excluded_self);
    let head = event_head(ts_ms);
    let own = match excluded_self {
        Some(id) => text::decimal(id as nat),
        None => "null"@,
    };
    let t1 = head + ",\"event\":\"top_n_query\",\"subscriber_id\":"@;
    let t2 = t1 + text::decimal(subscriber_id as nat);
    let t3 = t2 + ",\"n\":"@;
    let t4 = t3 + text::decimal(n as nat);
    let t5 = t4 + ",\"selected\":["@;
    let t6 = t5 + selected_list(selected, selected.len());
    let t7 = t6 + "],\"excluded_self\":"@;
    let t8 = t7 + own;
    let t9 = t8 + "}"@;
    assert(line == t9);
    assert(bytes::contains_run(line, "\"subscriber_id\":"@ + text::decimal(subscriber_id as nat) + ","@)) by {
        reveal_strlit(",\"event\":\"top_n_query\",\"subscriber_id\":");
        reveal_strlit("\"subscriber_id\":");
        reveal_strlit(",\"event\":\"top_n_query\",");
        reveal_strlit(",\"n\":");
        reveal_strlit(",");
        reveal_strlit("\"n\":");
        assert(",\"event\":\"top_n_query\",\"subscriber_id\":"@ =~= ",\"event\":\"top_n_query\","@ + "\"subscriber_id\":"@);
        assert(",\"n\":"@ =~= ","@ + "\"n\":"@);
        assert(head.subrange(0, head.len() as int) =~= head);
        lemma_spans(head, head, ",\"event\":\"top_n_query\","@, "\"subscriber_id\":"@, text::decimal(subscriber_id as nat), ","@, "\"n\":"@);
        lemma_longer(head, t3, "\"subscriber_id\":"@ + text::decimal(subscriber_id as nat) + ","@, text::decimal(n as nat));
        lemma_longer(head, t4, "\"subscriber_id\":"@ + text::decimal(subscriber_id as nat) + ","@, ",\"selected\":["@);
        lemma_longer(head, t5, "\"subscriber_id\":"@ + text::decimal(subscriber_id as nat) + ","@, selected_list(selected, selected.len()));
        lemma_longer(head, t6, "\"subscriber_id\":"@ + text::decimal(subscriber_id as nat) + ","@, "],\"excluded_self\":"@);
        lemma_longer(head, t7, "\"subscriber_id\":"@ + text::decimal(subscriber_id as nat) + ","@, own);
        lemma_longer(head, t8, "\"subscriber_id\":"@ + text::decimal(subscriber_id as nat) + ","@, "}"@);
    }
    assert(bytes::contains_run(line, "\"n\":"@ + text::decimal(n as nat) + ","@)) by {
        reveal_strlit(",\"n\":");
        reveal_strlit("\"n\":");
        reveal_strlit(",");
        reveal_strlit(",\"selected\":[");
        reveal_strlit("\"selected\":[");
        assert(",\"n\":"@ =~= ","@ + "\"n\":"@);
        assert(",\"selected\":["@ =~= ","@ + "\"selected\":["@);
        assert(t2.subrange(0, head.len() as int) =~= head);
        lemma_spans(head, t2, ","@, "\"n\":"@, text::decimal(n as nat), ","@, "\"selected\":["@);
        lemma_longer(head, t5, "\"n\":"@ + text::decimal(n as nat) + ","@, selected_list(selected, selected.len()));
        lemma_longer(head, t6, "\"n\":"@ + text::decimal(n as nat) + ","@, "],\"excluded_self\":"@);
        lemma_longer(head, t7, "\"n\":"@ + text::decimal(n as nat) + ","@, own);
        lemma_longer(head, t8, "\"n\":"@ + text::decimal(n as nat) + ","@, "}"@);
    }
    assert(bytes::contains_run(line, "\"selected\":["@ + selected_list(selected, selected.len()) + "]"@)) by {
        reveal_strlit(",\"selected\":[");
        reveal_strlit("\"selected\":[");
        reveal_strlit(",");
        reveal_strlit("],\"excluded_self\":");
        reveal_strlit("]");
        reveal_strlit(",\"excluded_self\":");
        assert(",\"selected\":["@ =~= ","@ + "\"selected\":["@);
        assert("],\"excluded_self\":"@ =~= "]"@ + ",\"excluded_self\":"@);
        assert(t4.subrange(0, head.len() as int) =~= head);
        lemma_spans(head, t4, ","@, "\"selected\":["@, selected_list(selected, selected.len()), "]"@, ",\"excluded_self\":"@);
        lemma_longer(head, t7, "\"selected\":["@ + selected_list(selected, selected.len()) + "]"@, own);
        lemma_longer(head, t8, "\"selected\":["@ + selected_list(selected, selected.len()) + "]"@, "}"@);
    }
    assert(bytes::ends_with(line, "\"excluded_self\":"@ + own + "}"@) && head.is_prefix_of(line)) by {
        reveal_strlit("],\"excluded_self\":");
        reveal_strlit("\"excluded_self\":");
        reveal_strlit("],");
        reveal_strlit("}");
        assert("],\"excluded_self\":"@ =~= "],"@ + "\"excluded_self\":"@);
        let front = t6 + "],"@;
        assert(line =~= front + ("\"excluded_self\":"@ + own + "}"@));
        bytes::law_parts_of_a_whole_are_found(front, "\"excluded_self\":"@ + own + "}"@, Seq::empty());
        assert(line.subrange(0, head.len() as int) =~= head);
    }
    if excluded_self is None {
        reveal_strlit("null");
        reveal_strlit("}");
        reveal_strlit("\"excluded_self\":");
        reveal_strlit("\"excluded_self\":null}");
        assert("\"excluded_self\":"@ + own + "}"@ =~= "\"excluded_self\":null}"@);
    }
}

} // verus!
