//! The agents connected to the app, by game, and the connection status
//! recorded for each game. An agent joins once its hello was accepted and
//! leaves when its pipe closes; the status shown for a game follows from how
//! many of its agents are connected.
use vstd::prelude::*;

use crate::agent::{connection_status, status_after_change, status_of, AgentConnectionStatus};
use crate::error::{agent_error, ErrorResponse};
use crate::pending::{distinct_ids, entries_map, take_entry};
use crate::text::str_equal;

verus! {

broadcast use Seq::lemma_filter_push;

/// The connections as pairs of game and announced instance identifier.
pub open spec fn link_views(links: Seq<(u32, String)>) -> Seq<(u32, Seq<char>)> {
    links.map_values(|link: (u32, String)| (link.0, link.1@))
}

/// Whether a connection belongs to the game.
pub open spec fn of_game(app_id: u32) -> spec_fn((u32, Seq<char>)) -> bool {
    |link: (u32, Seq<char>)| link.0 == app_id
}

/// Whether a connection is not the one of `instance_id` in the game.
pub open spec fn other_than(app_id: u32, instance_id: Seq<char>) -> spec_fn((u32, Seq<char>)) -> bool {
    |link: (u32, Seq<char>)| !(link.0 == app_id && link.1 == instance_id)
}

/// How many agents of the game are connected.
pub open spec fn game_count(links: Seq<(u32, Seq<char>)>, app_id: u32) -> nat {
    links.filter(of_game(app_id)).len()
}

/// The connections once the agent `instance_id` of the game has left.
pub open spec fn without_agent(links: Seq<(u32, Seq<char>)>, app_id: u32, instance_id: Seq<char>) -> Seq<
    (u32, Seq<char>),
> {
    links.filter(other_than(app_id, instance_id))
}

/// The status recorded once an agent joined a game that had `before`
/// agents connected.
pub open spec fn joined_status(before: nat) -> AgentConnectionStatus {
    if before == 0 {
        AgentConnectionStatus::Connected
    } else {
        AgentConnectionStatus::Ambiguous
    }
}

/// The status recorded once agents joined or left and `remaining` stay.
pub open spec fn remaining_status(remaining: nat) -> AgentConnectionStatus {
    if remaining == 0 {
        AgentConnectionStatus::Disconnected
    } else if remaining == 1 {
        AgentConnectionStatus::Connected
    } else {
        AgentConnectionStatus::Ambiguous
    }
}

/// The status last recorded for a game.
pub open spec fn last_status(records: Seq<(u32, AgentConnectionStatus)>, app_id: u32) -> Option<
    AgentConnectionStatus,
>
    decreases records.len(),
{
    if records.len() == 0 {
        None
    } else if records.last().0 == app_id {
        Some(records.last().1)
    } else {
        last_status(records.drop_last(), app_id)
    }
}

/// Whether a record is of a game other than `app_id`.
pub open spec fn not_of(app_id: u32) -> spec_fn((u32, AgentConnectionStatus)) -> bool {
    |record: (u32, AgentConnectionStatus)| record.0 != app_id
}

proof fn lemma_last_status_kept(records: Seq<(u32, AgentConnectionStatus)>, app_id: u32, other: u32)
    requires
        other != app_id,
    ensures
        last_status(records.filter(not_of(app_id)), other) == last_status(records, other),
    decreases records.len(),
{
    if records.len() == 0 {
        assert(records.filter(not_of(app_id)) =~= records) by {
            reveal(Seq::filter);
        }
    } else {
        let rest = records.drop_last();
        assert(records =~= rest.push(records.last()));
        lemma_last_status_kept(rest, app_id, other);
        if !not_of(app_id)(records.last()) {
            assert(records.filter(not_of(app_id)) == rest.filter(not_of(app_id)));
        } else {
            let kept = rest.filter(not_of(app_id)).push(records.last());
            assert(records.filter(not_of(app_id)) == kept);
            assert(kept.drop_last() =~= rest.filter(not_of(app_id)));
        }
    }
}

/// The agents connected to the app and the status recorded per game.
pub struct AgentConnections {
    links: Vec<(u32, String)>,
    records: Vec<(u32, AgentConnectionStatus)>,
}

impl AgentConnections {
    /// The connected agents, as game and instance identifier, in the order
    /// they joined.
    pub closed spec fn links(self) -> Seq<(u32, Seq<char>)> {
        link_views(self.links@)
    }

    /// The status last recorded for a game.
    pub closed spec fn recorded(self, app_id: u32) -> Option<AgentConnectionStatus> {
        last_status(self.records@, app_id)
    }

    /// No agent connected and no status recorded.
    pub fn new() -> (connections: AgentConnections)
        ensures
            connections.links() == Seq::<(u32, Seq<char>)>::empty(),
            forall|app_id: u32| connections.recorded(app_id) is None,
    {
        let connections = AgentConnections { links: Vec::new(), records: Vec::new() };
        proof {
            assert(link_views(connections.links@) =~= Seq::<(u32, Seq<char>)>::empty());
        }
        connections
    }

    /// How many agents of the game are connected.
    pub fn count(&self, app_id: u32) -> (count: usize)
        ensures
            count == game_count(self.links(), app_id),
    {
        let ghost all = link_views(self.links@);
        let mut count: usize = 0;
        let mut i: usize = 0;
        while i < self.links.len()
            invariant
                i <= self.links@.len(),
                all == link_views(self.links@),
                count == all.take(i as int).filter(of_game(app_id)).len(),
                count <= i,
            decreases self.links@.len() - i,
        {
            proof {
                assert(all.take(i + 1) =~= all.take(i as int).push(all[i as int]));
            }
            if self.links[i].0 == app_id {
                count = count + 1;
            }
            i = i + 1;
        }
        proof {
            assert(all.take(i as int) =~= all);
        }
        count
    }

    /// Records a status for a game, replacing the one recorded before.
    pub fn record(&mut self, app_id: u32, status: AgentConnectionStatus)
        ensures
            final(self).links() == old(self).links(),
            final(self).recorded(app_id) == Some(status),
            forall|other: u32| other != app_id ==> final(self).recorded(other) == old(self).recorded(other),
    {
        let ghost before = self.records@;
        let mut kept: Vec<(u32, AgentConnectionStatus)> = Vec::new();
        let mut i: usize = 0;
        while i < self.records.len()
            invariant
                i <= self.records@.len(),
                before == self.records@,
                kept@ == before.take(i as int).filter(not_of(app_id)),
            decreases self.records@.len() - i,
        {
            let record = self.records[i];
            proof {
                assert(before.take(i + 1) =~= before.take(i as int).push(record));
            }
            if record.0 != app_id {
                kept.push(record);
            }
            i = i + 1;
        }
        proof {
            assert(before.take(i as int) =~= before);
            assert forall|other: u32| other != app_id implies last_status(kept@.push((app_id, status)), other)
                == last_status(before, other) by {
                assert(kept@.push((app_id, status)).drop_last() =~= kept@);
                lemma_last_status_kept(before, app_id, other);
            }
        }
        kept.push((app_id, status));
        self.records = kept;
    }

    /// An agent of the game joined: it is connected, and the game's status
    /// becomes connected where it is the game's only agent, ambiguous
    /// otherwise.
    pub fn join(&mut self, app_id: u32, instance_id: String) -> (status: AgentConnectionStatus)
        ensures
            final(self).links() == old(self).links().push((app_id, instance_id@)),
            status == joined_status(game_count(old(self).links(), app_id)),
            final(self).recorded(app_id) == Some(status),
            forall|other: u32| other != app_id ==> final(self).recorded(other) == old(self).recorded(other),
    {
        let ghost before = link_views(self.links@);
        let ghost instance = instance_id@;
        self.links.push((app_id, instance_id));
        proof {
            assert(link_views(self.links@) =~= before.push((app_id, instance)));
        }
        let remaining = self.count(app_id);
        let status = status_after_change(remaining);
        self.record(app_id, status);
        status
    }

    /// The agent `instance_id` of the game left: its connections are
    /// dropped, and the game's status follows from the agents that remain.
    pub fn leave(&mut self, app_id: u32, instance_id: &str) -> (status: AgentConnectionStatus)
        ensures
            final(self).links() == without_agent(old(self).links(), app_id, instance_id@),
            status == remaining_status(game_count(final(self).links(), app_id)),
            final(self).recorded(app_id) == Some(status),
            forall|other: u32| other != app_id ==> final(self).recorded(other) == old(self).recorded(other),
    {
        let ghost all = link_views(self.links@);
        let mut links: Vec<(u32, String)> = Vec::new();
        std::mem::swap(&mut links, &mut self.links);
        let mut kept: Vec<(u32, String)> = Vec::new();
        let ghost mut i: int = 0;
        let ghost source = links@;
        while links.len() > 0
            invariant
                all == link_views(source),
                0 <= i <= source.len(),
                links@ == source.skip(i),
                link_views(kept@) == all.take(i).filter(other_than(app_id, instance_id@)),
            decreases links@.len(),
        {
            let link = links.remove(0);
            proof {
                assert(link == source[i]);
                assert(links@ =~= source.skip(i + 1));
                assert(all.take(i + 1) =~= all.take(i).push((link.0, link.1@)));
            }
            if !(link.0 == app_id && str_equal(link.1.as_str(), instance_id)) {
                let ghost old_kept = kept@;
                kept.push(link);
                proof {
                    assert(link_views(kept@) =~= link_views(old_kept).push((link.0, link.1@)));
                }
            }
            proof {
                i = i + 1;
            }
        }
        proof {
            assert(all.take(i) =~= all);
        }
        self.links = kept;
        let remaining = self.count(app_id);
        let status = status_after_change(remaining);
        self.record(app_id, status);
        status
    }

    /// The status shown for a game: connected or ambiguous while agents are
    /// connected, otherwise the status last recorded (disconnected where
    /// none was).
    pub fn status(&self, app_id: u32) -> (status: AgentConnectionStatus)
        ensures
            status == status_of(
                if game_count(self.links(), app_id) > 0 {
                    Some(game_count(self.links(), app_id) as usize)
                } else {
                    None
                },
                self.recorded(app_id),
            ),
    {
        let count = self.count(app_id);
        let recorded = self.find_record(app_id);
        if count > 0 {
            connection_status(Some(count), recorded)
        } else {
            connection_status(None, recorded)
        }
    }

    /// The status last recorded for a game.
    fn find_record(&self, app_id: u32) -> (found: Option<AgentConnectionStatus>)
        ensures
            found == self.recorded(app_id),
    {
        let mut i: usize = self.records.len();
        proof {
            assert(self.records@.take(i as int) =~= self.records@);
        }
        while i > 0
            invariant
                i <= self.records@.len(),
                last_status(self.records@, app_id) == last_status(self.records@.take(i as int), app_id),
            decreases i,
        {
            let record = self.records[i - 1];
            proof {
                assert(self.records@.take(i - 1) =~= self.records@.take(i as int).drop_last());
            }
            if record.0 == app_id {
                return Some(record.1);
            }
            i = i - 1;
        }
        proof {
            assert(self.records@.take(0) =~= Seq::<(u32, AgentConnectionStatus)>::empty());
        }
        None
    }
}

/// How a request to change a mod's settings through a game's agent went:
/// the frame could not be handed to the agent's connection, no answer came
/// in time, the mod rejected the change, or it accepted it (saying whether
/// the change waits for the game's restart).
#[derive(Clone, Copy, Debug, PartialEq, Eq, Structural)]
pub enum ConfigExchange {
    SendFailed,
    NoAnswer,
    Rejected,
    Accepted { restart_required: bool },
}

/// What a settings change through the agent reports: whether it waits for
/// a restart, or the error for how the exchange went. Only a game with
/// exactly one connected agent is asked (`agent_not_connected` otherwise).
pub fn config_change_outcome(connected: usize, exchange: ConfigExchange) -> (outcome: Result<bool, ErrorResponse>)
    ensures
        connected != 1 ==> (outcome matches Err(e) && e.code@ == "agent_not_connected"@),
        connected == 1 ==> match exchange {
            ConfigExchange::SendFailed => outcome matches Err(e) && e.code@ == "agent_disconnected"@,
            ConfigExchange::NoAnswer => outcome matches Err(e) && e.code@ == "agent_timeout"@,
            ConfigExchange::Rejected => outcome matches Err(e) && e.code@ == "agent_config_rejected"@,
            ConfigExchange::Accepted { restart_required } => outcome == Ok::<bool, ErrorResponse>(restart_required),
        },
{
    if connected != 1 {
        return Err(agent_error("agent_not_connected", "the game agent is not uniquely connected"));
    }
    match exchange {
        ConfigExchange::SendFailed => Err(agent_error("agent_disconnected", "the game agent disconnected")),
        ConfigExchange::NoAnswer => Err(
            agent_error("agent_timeout", "the game agent did not confirm the configuration change"),
        ),
        ConfigExchange::Rejected => Err(agent_error("agent_config_rejected", "the mod rejected a configuration change")),
        ConfigExchange::Accepted { restart_required } => Ok(restart_required),
    }
}

/// Ends a settings change sent to the game's only agent as request
/// `request_id`: whatever the exchange came to, the request is no longer
/// pending afterwards, and the outcome is what `config_change_outcome`
/// gives for it.
pub fn finish_config_exchange<P>(pending: &mut Vec<(String, P)>, request_id: &str, exchange: ConfigExchange) -> (outcome:
    Result<bool, ErrorResponse>)
    requires
        distinct_ids(old(pending)@),
    ensures
        distinct_ids(final(pending)@),
        entries_map(final(pending)@) == entries_map(old(pending)@).remove(request_id@),
        !entries_map(final(pending)@).contains_key(request_id@),
        match exchange {
            ConfigExchange::SendFailed => outcome matches Err(e) && e.code@ == "agent_disconnected"@,
            ConfigExchange::NoAnswer => outcome matches Err(e) && e.code@ == "agent_timeout"@,
            ConfigExchange::Rejected => outcome matches Err(e) && e.code@ == "agent_config_rejected"@,
            ConfigExchange::Accepted { restart_required } => outcome == Ok::<bool, ErrorResponse>(restart_required),
        },
{
    let _ = take_entry(pending, request_id);
    config_change_outcome(1, exchange)
}

proof fn lemma_all_kept(links: Seq<(u32, Seq<char>)>, app_id: u32, instance_id: Seq<char>)
    requires
        forall|k: int| 0 <= k < links.len() ==> !(links[k].0 == app_id && links[k].1 == instance_id),
    ensures
        links.filter(other_than(app_id, instance_id)) == links,
    decreases links.len(),
{
    if links.len() == 0 {
        assert(links.filter(other_than(app_id, instance_id)) =~= links) by {
            reveal(Seq::filter);
        }
    } else {
        let rest = links.drop_last();
        assert(links =~= rest.push(links.last()));
        lemma_all_kept(rest, app_id, instance_id);
    }
}

/// An agent that joins and then leaves again leaves the connections of
/// every game as they were, where it was not connected before.
pub proof fn join_then_leave_restores_connections(links: Seq<(u32, Seq<char>)>, app_id: u32, instance_id: Seq<char>)
    requires
        forall|k: int| 0 <= k < links.len() ==> !(links[k].0 == app_id && links[k].1 == instance_id),
    ensures
        without_agent(links.push((app_id, instance_id)), app_id, instance_id) == links,
{
    lemma_all_kept(links, app_id, instance_id);
}

/// A game's status is connected exactly while one of its agents is
/// connected: joining a game without agents connects it, and a second agent
/// makes it ambiguous.
pub proof fn first_agent_connects(before: nat)
    ensures
        (joined_status(before) == AgentConnectionStatus::Connected) <==> before == 0,
        remaining_status(before + 1) == joined_status(before),
{
}

} // verus!
