use vstd::prelude::*;

verus! {

/// One decoded log line: the raw clock text and what happened.
#[derive(Debug, Clone, PartialEq)]
pub struct GameEvent {
    pub timestamp: String,
    pub action: Action,
}

/// The closed set of actions that a log line can carry.
#[derive(Debug, Clone, PartialEq)]
pub enum Action {
    InitGame { details: String },
    ShutdownGame,
    ClientConnect { player_id: u32 },
    ClientUserinfoChanged { player_id: u32, info: String },
    ClientBegin { player_id: u32 },
    Item { item_id: u32, description: String },
    Kill {
        kill_id: u32,
        player_id: u32,
        victim_id: u32,
        player_name: String,
        victim_name: String,
        method: String,
    },
    ClientDisconnect { player_id: u32 },
    Other { action_name: String, details: String },
}

/// The mathematical value of an `Action`: its strings as character sequences.
pub enum ActionView {
    InitGame { details: Seq<char> },
    ShutdownGame,
    ClientConnect { player_id: u32 },
    ClientUserinfoChanged { player_id: u32, info: Seq<char> },
    ClientBegin { player_id: u32 },
    Item { item_id: u32, description: Seq<char> },
    Kill {
        kill_id: u32,
        player_id: u32,
        victim_id: u32,
        player_name: Seq<char>,
        victim_name: Seq<char>,
        method: Seq<char>,
    },
    ClientDisconnect { player_id: u32 },
    Other { action_name: Seq<char>, details: Seq<char> },
}

pub struct EventView {
    pub timestamp: Seq<char>,
    pub action: ActionView,
}

impl View for Action {
    type V = ActionView;

    open spec fn view(&self) -> ActionView {
        match self {
            Action::InitGame { details } => ActionView::InitGame { details: details@ },
            Action::ShutdownGame => ActionView::ShutdownGame,
            Action::ClientConnect { player_id } => ActionView::ClientConnect {
                player_id: *player_id,
            },
            Action::ClientUserinfoChanged { player_id, info } => ActionView::ClientUserinfoChanged {
                player_id: *player_id,
                info: info@,
            },
            Action::ClientBegin { player_id } => ActionView::ClientBegin { player_id: *player_id },
            Action::Item { item_id, description } => ActionView::Item {
                item_id: *item_id,
                description: description@,
            },
            Action::Kill { kill_id, player_id, victim_id, player_name, victim_name, method } =>
                ActionView::Kill {
                kill_id: *kill_id,
                player_id: *player_id,
                victim_id: *victim_id,
                player_name: player_name@,
                victim_name: victim_name@,
                method: method@,
            },
            Action::ClientDisconnect { player_id } => ActionView::ClientDisconnect {
                player_id: *player_id,
            },
            Action::Other { action_name, details } => ActionView::Other {
                action_name: action_name@,
                details: details@,
            },
        }
    }
}

impl View for GameEvent {
    type V = EventView;

    open spec fn view(&self) -> EventView {
        EventView { timestamp: self.timestamp@, action: self.action@ }
    }
}

pub open spec fn event_views(v: Seq<GameEvent>) -> Seq<EventView> {
    v.map_values(|e: GameEvent| e@)
}

} // verus!
