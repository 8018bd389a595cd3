use vstd::prelude::*;
use std::collections::HashMap;
use crate::decode::find_from;
use crate::event::{Action, ActionView, EventView, GameEvent, event_views};
use crate::tally::{Tally, count_in};
use crate::text::{chars_of, slice, string_of};

verus! {

broadcast use vstd::std_specs::hash::group_hash_axioms;

/// The name that stands for the map itself rather than a player.
pub open spec fn world() -> Seq<char> {
    "<world>"@
}

/// How many of `evs` are kills by means of `m`, whoever the attacker.
pub open spec fn method_count(evs: Seq<EventView>, m: Seq<char>) -> nat
    decreases evs.len(),
{
    if evs.len() == 0 {
        0
    } else {
        method_count(evs.drop_last(), m) + match evs.last().action {
            ActionView::Kill { method, .. } => if method == m {
                1nat
            } else {
                0nat
            },
            _ => 0nat,
        }
    }
}

/// How many of `evs` are kills by the player named `p`; never any for `<world>`.
pub open spec fn killer_count(evs: Seq<EventView>, p: Seq<char>) -> nat
    decreases evs.len(),
{
    if evs.len() == 0 {
        0
    } else {
        killer_count(evs.drop_last(), p) + match evs.last().action {
            ActionView::Kill { player_name, .. } => if player_name == p && p != world() {
                1nat
            } else {
                0nat
            },
            _ => 0nat,
        }
    }
}

pub open spec fn has_shutdown(evs: Seq<EventView>) -> bool {
    exists|i: int| 0 <= i < evs.len() && evs[i].action is ShutdownGame
}

/// The details of the last `InitGame` among `evs`.
pub open spec fn init_of(evs: Seq<EventView>) -> Option<Seq<char>>
    decreases evs.len(),
{
    if evs.len() == 0 {
        None
    } else {
        match evs.last().action {
            ActionView::InitGame { details } => Some(details),
            _ => init_of(evs.drop_last()),
        }
    }
}

/// The kills among `evs`, in order.
pub open spec fn kills_of(evs: Seq<EventView>) -> Seq<EventView>
    decreases evs.len(),
{
    if evs.len() == 0 {
        Seq::empty()
    } else if evs.last().action is Kill {
        kills_of(evs.drop_last()).push(evs.last())
    } else {
        kills_of(evs.drop_last())
    }
}

/// `n\` at `i`, followed by a character that is no backslash.
pub open spec fn marker_at(s: Seq<char>, i: int) -> bool {
    0 <= i && i + 2 < s.len() && s[i] == 'n' && s[i + 1] == '\\' && s[i + 2] != '\\'
}

pub open spec fn first_marker(s: Seq<char>, i: int) -> bool {
    marker_at(s, i) && forall|j: int| #[trigger] marker_at(s, j) ==> i <= j
}

/// The player name in a userinfo blob: what follows the first `n\` up to the
/// next backslash.
pub open spec fn name_of(s: Seq<char>) -> Option<Seq<char>> {
    if exists|i: int| first_marker(s, i) {
        let i = choose|i: int| first_marker(s, i);
        Some(s.subrange(i + 2, find_from(s, '\\', i + 2)))
    } else {
        None
    }
}

/// Player id to display name, from the userinfo changes among `evs`; a later
/// change replaces an earlier one.
pub open spec fn players_of(evs: Seq<EventView>) -> Map<u32, Seq<char>>
    decreases evs.len(),
{
    if evs.len() == 0 {
        Map::empty()
    } else {
        let m = players_of(evs.drop_last());
        match evs.last().action {
            ActionView::ClientUserinfoChanged { player_id, info } => match name_of(info) {
                Some(n) => m.insert(player_id, n),
                None => m,
            },
            _ => m,
        }
    }
}

pub proof fn lemma_counts_bounded(evs: Seq<EventView>, k: Seq<char>)
    ensures
        method_count(evs, k) <= evs.len(),
        killer_count(evs, k) <= evs.len(),
    decreases evs.len(),
{
    if evs.len() > 0 {
        lemma_counts_bounded(evs.drop_last(), k);
    }
}

/// Extracts the player name from a userinfo blob.
pub fn extract_player_name(userinfo: &str) -> (r: Option<String>)
    ensures
        match r {
            Some(n) => name_of(userinfo@) == Some(n@),
            None => name_of(userinfo@) is None,
        },
{
    let s = chars_of(userinfo);
    let n = s.len();
    let mut i: usize = 0;
    while n >= 2 && i < n - 2
        invariant
            n == s@.len(),
            s@ == userinfo@,
            forall|j: int| #[trigger] marker_at(s@, j) ==> j >= i,
        decreases n - i,
    {
        if s[i] == 'n' && s[i + 1] == '\\' && s[i + 2] != '\\' {
            assert(first_marker(s@, i as int));
            let mut e: usize = i + 2;
            while e < n && s[e] != '\\'
                invariant
                    i + 2 <= e <= n,
                    n == s@.len(),
                    find_from(s@, '\\', e as int) == find_from(s@, '\\', i + 2),
                decreases n - e,
            {
                e = e + 1;
            }
            proof {
                let i1 = choose|i1: int| first_marker(s@, i1);
                assert(marker_at(s@, i1) && marker_at(s@, i as int));
            }
            return Some(string_of(slice(&s, i + 2, e).as_slice()));
        }
        assert(!marker_at(s@, i as int));
        i = i + 1;
    }
    assert(forall|j: int| !#[trigger] marker_at(s@, j));
    None
}

/// One session of the log: its events and what has been tallied from them.
#[derive(Debug, Clone)]
pub struct Game {
    pub id: u32,
    pub events: Vec<GameEvent>,
    pub init_details: Option<String>,
    pub completed: bool,
    pub kills_by_means: Tally,
    pub killers: Tally,
}

impl Game {
    pub open spec fn evs(&self) -> Seq<EventView> {
        event_views(self.events@)
    }

    pub open spec fn init_view(&self) -> Option<Seq<char>> {
        match self.init_details {
            Some(d) => Some(d@),
            None => None,
        }
    }

    /// Every field but `id` is what the events determine.
    pub open spec fn wf(&self) -> bool {
        &&& self.kills_by_means.wf()
        &&& self.killers.wf()
        &&& self.init_view() == init_of(self.evs())
        &&& self.completed == has_shutdown(self.evs())
        &&& forall|k: Seq<char>| #[trigger]
            count_in(self.kills_by_means@, k) == method_count(self.evs(), k)
        &&& forall|k: Seq<char>| #[trigger] count_in(self.killers@, k) == killer_count(self.evs(), k)
    }

    pub fn new(id: u32) -> (r: Game)
        ensures
            r.wf(),
            r.id == id,
            r.evs() == Seq::<EventView>::empty(),
    {
        let r = Game {
            id,
            events: Vec::new(),
            init_details: None,
            completed: false,
            kills_by_means: Tally::new(),
            killers: Tally::new(),
        };
        assert(r.evs() =~= Seq::<EventView>::empty());
        r
    }

    /// Appends `event` and updates what is tallied from it.
    pub fn add_event(&mut self, event: GameEvent)
        requires
            old(self).wf(),
            old(self).events.len() < u32::MAX,
        ensures
            final(self).wf(),
            final(self).id == old(self).id,
            final(self).evs() == old(self).evs().push(event@),
            final(self).completed == (old(self).completed || event@.action is ShutdownGame),
            !final(self).killers@.contains_key(world()),
    {
        let ghost evs0 = self.evs();
        let ghost evs1 = evs0.push(event@);
        assert(evs1.drop_last() =~= evs0);
        assert(evs1.last() == event@);
        if let Action::InitGame { details } = &event.action {
            self.init_details = Some(details.clone());
        } else if let Action::ShutdownGame = &event.action {
            self.completed = true;
            assert(evs1[evs0.len() as int].action is ShutdownGame);
        } else if let Action::Kill { method, player_name, .. } = &event.action {
            proof {
                lemma_counts_bounded(evs0, method@);
                lemma_counts_bounded(evs0, player_name@);
            }
            let ghost m0 = self.kills_by_means@;
            self.kills_by_means.add(method, 1);
            assert forall|k: Seq<char>| #[trigger]
                count_in(self.kills_by_means@, k) == method_count(evs1, k) by {
                assert(count_in(m0, k) == method_count(evs0, k));
            }
            let world_name = "<world>".to_owned();
            if *player_name != world_name {
                let ghost p0 = self.killers@;
                self.killers.add(player_name, 1);
                assert forall|k: Seq<char>| #[trigger]
                    count_in(self.killers@, k) == killer_count(evs1, k) by {
                    assert(count_in(p0, k) == killer_count(evs0, k));
                }
            } else {
                assert forall|k: Seq<char>| #[trigger]
                    count_in(self.killers@, k) == killer_count(evs1, k) by {
                    assert(count_in(self.killers@, k) == killer_count(evs0, k));
                }
            }
        }
        proof {
            if !(event@.action is ShutdownGame) {
                if has_shutdown(evs1) {
                    let i = choose|i: int| 0 <= i < evs1.len() && evs1[i].action is ShutdownGame;
                    assert(evs0[i] == evs1[i]);
                }
            }
            if has_shutdown(evs0) {
                let i = choose|i: int| 0 <= i < evs0.len() && evs0[i].action is ShutdownGame;
                assert(evs1[i] == evs0[i]);
            }
        }
        self.events.push(event);
        assert(self.evs() =~= evs1);
        proof {
            crate::laws::lemma_world_never_a_killer(&*self);
        }
    }

    /// Player id to display name, from the userinfo changes of this game.
    pub fn get_players(&self) -> (r: HashMap<u32, String>)
        ensures
            r@.dom() == players_of(self.evs()).dom(),
            forall|id: u32| #[trigger]
                r@.contains_key(id) ==> r@[id]@ == players_of(self.evs())[id],
    {
        let mut players: HashMap<u32, String> = HashMap::new();
        let mut i: usize = 0;
        while i < self.events.len()
            invariant
                i <= self.events@.len(),
                players@.dom() == players_of(self.evs().subrange(0, i as int)).dom(),
                forall|id: u32| #[trigger]
                    players@.contains_key(id) ==> players@[id]@ == players_of(
                        self.evs().subrange(0, i as int),
                    )[id],
            decreases self.events.len() - i,
        {
            let ghost pre = self.evs().subrange(0, i as int);
            let ghost nxt = self.evs().subrange(0, i + 1);
            assert(nxt.drop_last() =~= pre);
            assert(nxt.last() == self.events@[i as int]@);
            match &self.events[i].action {
                Action::ClientUserinfoChanged { player_id, info } => {
                    if let Some(name) = extract_player_name(info.as_str()) {
                        players.insert(*player_id, name);
                    }
                },
                _ => {},
            }
            i = i + 1;
        }
        assert(self.evs().subrange(0, i as int) =~= self.evs());
        players
    }

    /// The kill events of this game, in order.
    pub fn get_kills(&self) -> (r: Vec<&GameEvent>)
        ensures
            r@.map_values(|e: &GameEvent| e@) == kills_of(self.evs()),
    {
        let mut r: Vec<&GameEvent> = Vec::new();
        let mut i: usize = 0;
        while i < self.events.len()
            invariant
                i <= self.events@.len(),
                r@.map_values(|e: &GameEvent| e@) == kills_of(self.evs().subrange(0, i as int)),
            decreases self.events.len() - i,
        {
            let ghost pre = self.evs().subrange(0, i as int);
            let ghost nxt = self.evs().subrange(0, i + 1);
            assert(nxt.drop_last() =~= pre);
            assert(nxt.last() == self.events@[i as int]@);
            let e = &self.events[i];
            if let Action::Kill { .. } = &e.action {
                r.push(e);
            }
            i = i + 1;
            assert(r@.map_values(|e: &GameEvent| e@) =~= kills_of(nxt));
        }
        assert(self.evs().subrange(0, i as int) =~= self.evs());
        r
    }
}

} // verus!
