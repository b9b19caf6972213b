//! Whether a session publishes.

use vstd::prelude::*;

verus! {

/// Whether a session publishes, and as whom. A session that publishes does not get its own tracks
/// when it subscribes.
#[derive(Debug)]
pub struct SessionPublisherTracker {
    publisher_id: u64,
    published_tracks: Vec<u64>,
}

/// Whether a session publishes: the aliases of the tracks that it published, in order.
pub open spec fn first_alias(published: Seq<u64>) -> Option<u64>
    decreases published.len(),
{
    if published.len() == 0 {
        None
    } else {
        match first_alias(published.drop_last()) {
            Some(id) => Some(id),
            None => if published.last() == 0 {
                None
            } else {
                Some(published.last())
            },
        }
    }
}

impl View for SessionPublisherTracker {
    type V = Seq<u64>;

    closed spec fn view(&self) -> Seq<u64> {
        self.published_tracks@
    }
}

impl SessionPublisherTracker {
    /// The identifier is the first alias other than zero, and zero if there is none.
    pub closed spec fn wf(&self) -> bool {
        self.publisher_id == (match first_alias(self.published_tracks@) {
            Some(id) => id,
            None => 0,
        }) && first_alias(self.published_tracks@) != Some(0u64)
    }

    /// A session that has not published.
    pub fn new() -> (r: Self)
        ensures
            r.wf(),
            r@ == Seq::<u64>::empty(),
    {
        SessionPublisherTracker { publisher_id: 0, published_tracks: Vec::new() }
    }

    /// Notes that the session publishes a track. The first alias is the identifier of the
    /// publisher. Zero stands for no publisher.
    pub fn record_publish(&mut self, track_alias: u64)
        requires
            old(self).wf(),
        ensures
            final(self).wf(),
            final(self)@ == old(self)@.push(track_alias),
    {
        let ghost before = self@;
        if self.publisher_id == 0 {
            self.publisher_id = track_alias;
        }
        self.published_tracks.push(track_alias);
        assert(before.push(track_alias).drop_last() =~= before);
    }

    /// The identifier of the publisher, if the session publishes.
    pub fn get_publisher_id(&self) -> (r: Option<u64>)
        requires
            self.wf(),
        ensures
            r == first_alias(self@),
    {
        if self.publisher_id == 0 {
            None
        } else {
            Some(self.publisher_id)
        }
    }

    /// Whether the session publishes.
    pub fn is_publisher(&self) -> (r: bool)
        requires
            self.wf(),
        ensures
            r == (first_alias(self@) is Some),
    {
        self.publisher_id != 0
    }

    /// How many tracks the session published.
    pub fn published_track_count(&self) -> (r: usize)
        ensures
            r == self@.len(),
    {
        self.published_tracks.len()
    }
}

impl Default for SessionPublisherTracker {
    fn default() -> (r: Self)
        ensures
            r.wf(),
            r@ == Seq::<u64>::empty(),
    {
        Self::new()
    }
}

/// Once a session has an identifier, publishing more does not change it.
pub proof fn law_identifier_stays(published: Seq<u64>, alias: u64)
    requires
        first_alias(published) is Some,
    ensures
        first_alias(published.push(alias)) == first_alias(published),
{
    assert(published.push(alias).drop_last() =~= published);
}

/// The first alias of a session becomes its identifier.
pub proof fn law_first_alias_identifies(alias: u64)
    requires
        alias != 0,
    ensures
        first_alias(seq![alias]) == Some(alias),
{
    assert(seq![alias].drop_last() =~= Seq::<u64>::empty());
    assert(first_alias(Seq::<u64>::empty()) is None);
}

/// A session is known by the first alias other than zero that it published, and by none if it
/// published no such alias.
pub proof fn law_first_other_than_zero_identifies(published: Seq<u64>)
    ensures
        match first_alias(published) {
            Some(id) => id != 0 && exists|i: int|
                0 <= i < published.len() && #[trigger] published[i] == id && forall|j: int|
                    0 <= j < i ==> #[trigger] published[j] == 0,
            None => forall|i: int| 0 <= i < published.len() ==> #[trigger] published[i] == 0,
        },
    decreases published.len(),
{
    if published.len() > 0 {
        let rest = published.drop_last();
        law_first_other_than_zero_identifies(rest);
        assert(forall|j: int| 0 <= j < rest.len() ==> #[trigger] rest[j] == published[j]);
        match first_alias(rest) {
            Some(id) => {
                let i = choose|i: int|
                    0 <= i < rest.len() && #[trigger] rest[i] == id && forall|j: int|
                        0 <= j < i ==> #[trigger] rest[j] == 0;
                assert(published[i] == id);
                assert forall|j: int| 0 <= j < i implies #[trigger] published[j] == 0 by {
                    assert(rest[j] == 0);
                }
            },
            None => {
                assert forall|j: int| 0 <= j < rest.len() implies #[trigger] published[j] == 0 by {
                    assert(rest[j] == 0);
                }
                assert(published[published.len() - 1] == published.last());
            },
        }
    }
}

} // verus!
