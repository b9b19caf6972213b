//! A client that publishes activity and watches the most active participants of a room.

use vstd::prelude::*;
use vstd::string::StrSliceExecFns;
use crate::bytes;
use crate::text::{self, push_decimal, text_eq};

verus! {

/// What the client does.
#[derive(Debug, Clone, Copy, PartialEq, Eq, Structural)]
pub enum Mode {
    Publish,
    Subscribe,
    /// Both, on one connection.
    Both,
}

/// Why the client does nothing.
#[derive(Debug, Clone, Copy, PartialEq, Eq, Structural)]
pub enum ModeError {
    /// Nothing is asked for.
    NoMode,
    /// More than one thing is asked for.
    SeveralModes,
}

/// What the client does. Asking for both includes asking for one of them.
pub open spec fn mode_of(publish: bool, subscribe: bool, both: bool) -> Result<Mode, ModeError> {
    if both {
        Ok(Mode::Both)
    } else if publish && subscribe {
        Err(ModeError::SeveralModes)
    } else if publish {
        Ok(Mode::Publish)
    } else if subscribe {
        Ok(Mode::Subscribe)
    } else {
        Err(ModeError::NoMode)
    }
}

/// What the client does.
pub fn choose_mode(publish: bool, subscribe: bool, both: bool) -> (r: Result<Mode, ModeError>)
    ensures
        r == mode_of(publish, subscribe, both),
{
    if both {
        Ok(Mode::Both)
    } else if publish && subscribe {
        Err(ModeError::SeveralModes)
    } else if publish {
        Ok(Mode::Publish)
    } else if subscribe {
        Ok(Mode::Subscribe)
    } else {
        Err(ModeError::NoMode)
    }
}

/// The namespace of a room.
pub fn room_namespace(room: &str) -> (r: String)
    ensures
        r@ == "conference/"@ + room@,
{
    let mut out: String = "conference/".to_owned();
    out.append(room);
    out
}

/// The namespace of a participant of a room.
pub fn participant_namespace(room: &str, name: &str) -> (r: String)
    ensures
        r@ == "conference/"@ + room@ + "/"@ + name@,
{
    let mut out: String = room_namespace(room);
    out.append("/");
    out.append(name);
    out
}

/// The message with which a participant tells how active they are.
pub fn activity_message(name: &str, level: u8, sequence: u64) -> (r: String)
    ensures
        r@ == "{\"participant\":\""@ + name@ + "\",\"activity\":"@ + text::decimal(level as nat)
            + ",\"seq\":"@ + text::decimal(sequence as nat) + "}"@,
{
    let mut out: String = "{\"participant\":\"".to_owned();
    out.append(name);
    out.append("\",\"activity\":");
    push_decimal(&mut out, level as u64);
    out.append(",\"seq\":");
    push_decimal(&mut out, sequence);
    out.append("}");
    out
}

/// Whether `part` stands in `whole` at `at`.
fn text_occurs_at(whole: &str, part: &str, at: usize) -> (r: bool)
    requires
        at + part@.len() <= whole@.len() <= usize::MAX,
    ensures
        r == bytes::occurs_at(whole@, part@, at as int),
{
    let found: &str = whole.substring_char(at, at + part.unicode_len());
    text_eq(&found.to_owned(), &part.to_owned())
}

/// Whether `part` stands somewhere in `whole`.
pub fn text_contains(whole: &str, part: &str) -> (r: bool)
    ensures
        r == bytes::contains_run(whole@, part@),
{
    let n: usize = whole.unicode_len();
    let m: usize = part.unicode_len();
    if m > n {
        return false;
    }
    let mut at: usize = 0;
    while at < n - m
        invariant
            n == whole@.len(),
            m == part@.len(),
            m <= n,
            at <= n - m,
            forall|k: int| 0 <= k < at ==> !#[trigger] bytes::occurs_at(whole@, part@, k),
        decreases n - at,
    {
        if text_occurs_at(whole, part, at) {
            return true;
        }
        at += 1;
    }
    text_occurs_at(whole, part, at)
}

/// The tracks that a client was told of.
#[derive(Debug)]
pub struct ReceivedTracks {
    self_name: Option<String>,
    tracks: Vec<String>,
}

/// The tracks that a client was told of, and the name under which it publishes itself.
#[verifier::ext_equal]
pub struct ReceivedTracksView {
    pub self_name: Option<Seq<char>>,
    pub tracks: Seq<Seq<char>>,
}

impl View for ReceivedTracks {
    type V = ReceivedTracksView;

    closed spec fn view(&self) -> ReceivedTracksView {
        ReceivedTracksView {
            self_name: crate::auth::cose::text_view(self.self_name),
            tracks: text::texts_view(self.tracks@),
        }
    }
}

impl ReceivedTracksView {
    /// A namespace is that of the client itself.
    pub open spec fn is_own(self, namespace: Seq<char>) -> bool {
        match self.self_name {
            Some(name) => bytes::contains_run(namespace, name),
            None => false,
        }
    }

    /// With a track that the client was told of. Each counts once, and its own do not count.
    pub open spec fn received(
        self,
        namespace: Seq<char>,
        track: Seq<char>,
    ) -> ReceivedTracksView {
        let full_name = namespace + "/"@ + track;
        if self.is_own(namespace) || self.tracks.contains(full_name) {
            self
        } else {
            ReceivedTracksView { tracks: self.tracks.push(full_name), ..self }
        }
    }
}

impl ReceivedTracks {
    /// The client was told of no tracks.
    pub fn new(self_name: Option<String>) -> (r: Self)
        ensures
            r@.self_name == crate::auth::cose::text_view(self_name),
            r@.tracks == Seq::<Seq<char>>::empty(),
    {
        let r = ReceivedTracks { self_name, tracks: Vec::new() };
        assert(r@.tracks =~= Seq::<Seq<char>>::empty());
        r
    }

    /// Notes a track that the client was told of. Tells whether it is its own, which it should not
    /// be told of.
    pub fn receive(&mut self, namespace: &str, track: &str) -> (own: bool)
        ensures
            own == old(self)@.is_own(namespace@),
            final(self)@ == old(self)@.received(namespace@, track@),
    {
        let own = match &self.self_name {
            Some(name) => text_contains(namespace, name.as_str()),
            None => false,
        };
        if own {
            return true;
        }
        let mut full_name: String = namespace.to_owned();
        full_name.append("/");
        full_name.append(track);
        let ghost known = self@.tracks;
        let mut i: usize = 0;
        while i < self.tracks.len()
            invariant
                i <= self.tracks@.len(),
                self@ == old(self)@,
                known == text::texts_view(self.tracks@),
                known == self@.tracks,
                full_name@ == namespace@ + "/"@ + track@,
                !self@.is_own(namespace@),
                forall|k: int| 0 <= k < i ==> #[trigger] known[k] != full_name@,
            decreases self.tracks@.len() - i,
        {
            assert(known[i as int] == self.tracks@[i as int]@);
            if text_eq(&self.tracks[i], &full_name) {
                assert(known.contains(full_name@));
                return false;
            }
            i += 1;
        }
        proof {
            text::lemma_texts_push(self.tracks@, full_name);
        }
        self.tracks.push(full_name);
        false
    }

    /// The tracks that the client was told of.
    pub fn tracks(&self) -> (r: &Vec<String>)
        ensures
            text::texts_view(r@) == self@.tracks,
    {
        &self.tracks
    }
}

/// A client is told of each track at most once, and its own are not kept.
pub proof fn law_received_tracks_are_distinct(
    received: ReceivedTracksView,
    namespace: Seq<char>,
    track: Seq<char>,
)
    requires
        received.tracks.no_duplicates(),
    ensures
        received.received(namespace, track).tracks.no_duplicates(),
        received.is_own(namespace) ==> received.received(namespace, track) == received,
        received.received(namespace, track).received(namespace, track) == received.received(
            namespace,
            track,
        ),
{
    let full_name = namespace + "/"@ + track;
    let after = received.received(namespace, track);
    if !received.is_own(namespace) && !received.tracks.contains(full_name) {
        assert(after.tracks[received.tracks.len() as int] == full_name);
    }
}

/// Someone whose track can be selected.
#[derive(Debug)]
pub struct Participant {
    pub id: u64,
    pub name: String,
    pub activity: u64,
}

/// The identifiers and the names of participants.
pub open spec fn names_view(participants: Seq<Participant>) -> Seq<(u64, Seq<char>)> {
    participants.map_values(|p: Participant| (p.id, p.name@))
}

/// The name of the first of the first `n` participants with an identifier.
pub open spec fn first_name(participants: Seq<(u64, Seq<char>)>, id: u64, n: nat) -> Option<
    Seq<char>,
>
    decreases n,
{
    if n == 0 {
        None
    } else {
        match first_name(participants, id, (n - 1) as nat) {
            Some(name) => Some(name),
            None => if participants[n - 1].0 == id {
                Some(participants[n - 1].1)
            } else {
                None
            },
        }
    }
}

/// The name and the identifier, as they are shown.
pub open spec fn shown(participants: Seq<(u64, Seq<char>)>, id: u64) -> Seq<char> {
    (match first_name(participants, id, participants.len()) {
        Some(name) => name,
        None => "Unknown"@,
    }) + " (ID "@ + text::decimal(id as nat) + ")"@
}

/// The lines for the first `n` of the tracks that are selected.
pub open spec fn selected_lines(
    participants: Seq<(u64, Seq<char>)>,
    selected: Seq<u64>,
    n: nat,
) -> Seq<Seq<char>>
    decreases n,
{
    if n == 0 {
        Seq::empty()
    } else {
        selected_lines(participants, selected, (n - 1) as nat).push(
            "  [SELECTED] "@ + shown(participants, selected[n - 1]),
        )
    }
}

/// The lines for those of the first `n` participants that are not selected.
pub open spec fn deselected_lines(
    participants: Seq<(u64, Seq<char>)>,
    selected: Seq<u64>,
    n: nat,
) -> Seq<Seq<char>>
    decreases n,
{
    if n == 0 {
        Seq::empty()
    } else {
        let before = deselected_lines(participants, selected, (n - 1) as nat);
        let (id, name) = participants[n - 1];
        if selected.contains(id) {
            before
        } else {
            before.push(
                "  [DESELECTED] "@ + name + " (ID "@ + text::decimal(id as nat) + ")"@,
            )
        }
    }
}

proof fn lemma_first_name_stays(
    participants: Seq<(u64, Seq<char>)>,
    id: u64,
    m: nat,
    n: nat,
)
    requires
        m <= n,
        first_name(participants, id, m) is Some,
    ensures
        first_name(participants, id, n) == first_name(participants, id, m),
    decreases n,
{
    if m < n {
        lemma_first_name_stays(participants, id, m, (n - 1) as nat);
    }
}

/// Appends the name of a participant and the identifier.
fn push_shown(out: &mut String, participants: &Vec<Participant>, id: u64)
    ensures
        final(out)@ == old(out)@ + shown(names_view(participants@), id),
{
    let ghost names = names_view(participants@);
    let ghost start = out@;
    let mut i: usize = 0;
    while i < participants.len() && participants[i].id != id
        invariant
            i <= participants@.len(),
            names == names_view(participants@),
            first_name(names, id, i as nat) is None,
        decreases participants@.len() - i,
    {
        assert(names[i as int].0 == participants@[i as int].id);
        i += 1;
    }
    if i < participants.len() {
        proof {
            assert(names[i as int] == (participants@[i as int].id, participants@[i as int].name@));
            lemma_first_name_stays(names, id, (i + 1) as nat, names.len());
        }
        out.append(participants[i].name.as_str());
    } else {
        out.append("Unknown");
    }
    out.append(" (ID ");
    push_decimal(out, id);
    out.append(")");
    assert(out@ =~= start + shown(names, id));
}

/// The line for a track that comes to be in another state.
pub fn change_line(participants: &Vec<Participant>, id: u64, before: &str, after: &str) -> (r:
    String)
    ensures
        r@ == "  "@ + shown(names_view(participants@), id) + ": "@ + before@ + " -> "@ + after@,
{
    let mut out: String = "  ".to_owned();
    push_shown(&mut out, participants, id);
    out.append(": ");
    out.append(before);
    out.append(" -> ");
    out.append(after);
    out
}

/// The lines for a selection: the tracks that are selected, in their order, and the participants
/// that are not.
pub fn selection_lines(participants: &Vec<Participant>, selected: &Vec<u64>) -> (r: Vec<String>)
    ensures
        text::texts_view(r@) == selected_lines(
            names_view(participants@),
            selected@,
            selected@.len(),
        ) + deselected_lines(names_view(participants@), selected@, participants@.len()),
{
    let ghost names = names_view(participants@);
    let mut out: Vec<String> = Vec::new();
    assert(text::texts_view(out@) =~= Seq::empty());
    let mut i: usize = 0;
    while i < selected.len()
        invariant
            i <= selected@.len(),
            names == names_view(participants@),
            text::texts_view(out@) == selected_lines(names, selected@, i as nat),
        decreases selected@.len() - i,
    {
        let mut line: String = "  [SELECTED] ".to_owned();
        push_shown(&mut line, participants, selected[i]);
        proof {
            text::lemma_texts_push(out@, line);
        }
        out.push(line);
        i += 1;
    }
    let ghost chosen = selected_lines(names, selected@, selected@.len());
    assert(text::texts_view(out@) =~= chosen + Seq::empty());
    let mut i: usize = 0;
    while i < participants.len()
        invariant
            i <= participants@.len(),
            names == names_view(participants@),
            text::texts_view(out@) == chosen + deselected_lines(names, selected@, i as nat),
        decreases participants@.len() - i,
    {
        let participant = &participants[i];
        assert(names[i as int] == (participant.id, participant.name@));
        if !holds_id(selected, participant.id) {
            let mut line: String = "  [DESELECTED] ".to_owned();
            line.append(participant.name.as_str());
            line.append(" (ID ");
            push_decimal(&mut line, participant.id);
            line.append(")");
            proof {
                text::lemma_texts_push(out@, line);
                let before = deselected_lines(names, selected@, i as nat);
                assert((chosen + before).push(line@) =~= chosen + before.push(line@));
            }
            out.push(line);
        }
        i += 1;
    }
    out
}

/// Whether a list holds an identifier.
fn holds_id(ids: &Vec<u64>, id: u64) -> (r: bool)
    ensures
        r == ids@.contains(id),
{
    let mut i: usize = 0;
    while i < ids.len()
        invariant
            i <= ids@.len(),
            forall|k: int| 0 <= k < i ==> ids@[k] != id,
        decreases ids@.len() - i,
    {
        if ids[i] == id {
            return true;
        }
        i += 1;
    }
    false
}

/// A client that asks for both does both. Else it has to ask for exactly one thing, which it then
/// does.
pub proof fn law_client_does_what_it_asks_for(publish: bool, subscribe: bool, both: bool)
    ensures
        mode_of(publish, subscribe, both) is Ok <==> both || publish != subscribe,
        mode_of(publish, subscribe, both) == Ok::<Mode, ModeError>(Mode::Both) <==> both,
        mode_of(publish, subscribe, both) == Ok::<Mode, ModeError>(Mode::Publish) <==> !both
            && publish && !subscribe,
        mode_of(publish, subscribe, both) == Ok::<Mode, ModeError>(Mode::Subscribe) <==> !both
            && subscribe && !publish,
        mode_of(publish, subscribe, both) == Err::<Mode, ModeError>(ModeError::SeveralModes)
            <==> !both && publish && subscribe,
{
}

/// A track of another participant that a client is told of is kept under its full name, behind
/// those that it has. A client without a name has no tracks of its own.
pub proof fn law_tracks_of_others_are_kept(
    received: ReceivedTracksView,
    namespace: Seq<char>,
    track: Seq<char>,
)
    ensures
        ({
            let after = received.received(namespace, track);
            let own = received.self_name matches Some(name) && exists|a: Seq<char>, b: Seq<char>|
                namespace == #[trigger] (a + name + b);
            &&& received.is_own(namespace) == own
            &&& !own ==> after.tracks.contains(namespace + "/"@ + track)
            &&& own ==> after == received
            &&& received.tracks.is_prefix_of(after.tracks)
            &&& after.tracks.len() <= received.tracks.len() + 1
            &&& after.self_name == received.self_name
        }),
{
    let full_name = namespace + "/"@ + track;
    let after = received.received(namespace, track);
    match received.self_name {
        Some(name) => {
            bytes::law_parts_of_a_whole_are_found(seq![], name, namespace);
            if exists|a: Seq<char>, b: Seq<char>| namespace == #[trigger] (a + name + b) {
                let (a, b) = choose|a: Seq<char>, b: Seq<char>|
                    namespace == #[trigger] (a + name + b);
                bytes::law_parts_of_a_whole_are_found(a, name, b);
            }
        },
        None => {},
    }
    if !received.is_own(namespace) && !received.tracks.contains(full_name) {
        assert(after.tracks[received.tracks.len() as int] == full_name);
    }
}

/// A participant is shown by the name that its identifier comes with first.
pub proof fn law_first_name_is_shown(participants: Seq<(u64, Seq<char>)>, id: u64, i: int)
    requires
        0 <= i < participants.len(),
        participants[i].0 == id,
        forall|j: int| 0 <= j < i ==> (#[trigger] participants[j]).0 != id,
    ensures
        shown(participants, id) == participants[i].1 + " (ID "@ + text::decimal(id as nat) + ")"@,
{
    lemma_no_name(participants, id, i as nat);
    lemma_first_name_stays(participants, id, (i + 1) as nat, participants.len());
}

proof fn lemma_no_name(participants: Seq<(u64, Seq<char>)>, id: u64, n: nat)
    requires
        n <= participants.len(),
        forall|j: int| 0 <= j < n ==> (#[trigger] participants[j]).0 != id,
    ensures
        first_name(participants, id, n) is None,
    decreases n,
{
    if n > 0 {
        lemma_no_name(participants, id, (n - 1) as nat);
    }
}

/// One that nobody has is shown as unknown.
pub proof fn law_stranger_is_shown_as_unknown(participants: Seq<(u64, Seq<char>)>, id: u64)
    requires
        forall|j: int| 0 <= j < participants.len() ==> (#[trigger] participants[j]).0 != id,
    ensures
        shown(participants, id) == "Unknown (ID "@ + text::decimal(id as nat) + ")"@,
{
    lemma_no_name(participants, id, participants.len());
    reveal_strlit("Unknown");
    reveal_strlit(" (ID ");
    reveal_strlit("Unknown (ID ");
    assert("Unknown"@ + " (ID "@ =~= "Unknown (ID "@);
}

/// Every selected track has a line, in the order of the selection.
pub proof fn law_selected_tracks_have_a_line(
    participants: Seq<(u64, Seq<char>)>,
    selected: Seq<u64>,
    n: nat,
)
    requires
        n <= selected.len(),
    ensures
        selected_lines(participants, selected, n).len() == n,
        forall|i: int|
            0 <= i < n ==> #[trigger] selected_lines(participants, selected, n)[i]
                == "  [SELECTED] "@ + shown(participants, selected[i]),
    decreases n,
{
    if n > 0 {
        law_selected_tracks_have_a_line(participants, selected, (n - 1) as nat);
    }
}

/// Every participant that is not selected has a line, and no other has one.
pub proof fn law_other_participants_have_a_line(
    participants: Seq<(u64, Seq<char>)>,
    selected: Seq<u64>,
    n: nat,
)
    requires
        n <= participants.len(),
    ensures
        forall|i: int|
            0 <= i < n && !selected.contains((#[trigger] participants[i]).0) ==> deselected_lines(
                participants,
                selected,
                n,
            ).contains(
                "  [DESELECTED] "@ + participants[i].1 + " (ID "@ + text::decimal(
                    participants[i].0 as nat,
                ) + ")"@,
            ),
        forall|k: int|
            0 <= k < deselected_lines(participants, selected, n).len() ==> exists|i: int|
                0 <= i < n && !selected.contains((#[trigger] participants[i]).0)
                    && #[trigger] deselected_lines(participants, selected, n)[k]
                    == "  [DESELECTED] "@ + participants[i].1 + " (ID "@ + text::decimal(
                    participants[i].0 as nat,
                ) + ")"@,
        deselected_lines(participants, selected, n).len() <= n,
    decreases n,
{
    if n > 0 {
        law_other_participants_have_a_line(participants, selected, (n - 1) as nat);
        let before = deselected_lines(participants, selected, (n - 1) as nat);
        let after = deselected_lines(participants, selected, n);
        let (id, name) = participants[n - 1];
        let line = "  [DESELECTED] "@ + name + " (ID "@ + text::decimal(id as nat) + ")"@;
        assert forall|i: int|
            0 <= i < n && !selected.contains((#[trigger] participants[i]).0) implies after.contains(
            "  [DESELECTED] "@ + participants[i].1 + " (ID "@ + text::decimal(
                participants[i].0 as nat,
            ) + ")"@,
        ) by {
            if i == n - 1 {
                assert(after[before.len() as int] == line);
            } else {
                let own = "  [DESELECTED] "@ + participants[i].1 + " (ID "@ + text::decimal(
                    participants[i].0 as nat,
                ) + ")"@;
                let k = before.index_of(own);
                assert(after[k] == own);
            }
        }
        assert forall|k: int| 0 <= k < after.len() implies exists|i: int|
            0 <= i < n && !selected.contains((#[trigger] participants[i]).0) && #[trigger] after[k]
                == "  [DESELECTED] "@ + participants[i].1 + " (ID "@ + text::decimal(
                participants[i].0 as nat,
            ) + ")"@ by {
            if k < before.len() {
                assert(after[k] == before[k]);
                let i = choose|i: int|
                    0 <= i < n - 1 && !selected.contains((#[trigger] participants[i]).0)
                        && #[trigger] before[k] == "  [DESELECTED] "@ + participants[i].1
                        + " (ID "@ + text::decimal(participants[i].0 as nat) + ")"@;
                assert(!selected.contains(participants[i].0));
            } else {
                assert(after[k] == line);
                assert(!selected.contains(participants[n - 1].0));
            }
        }
    }
}

} // verus!
