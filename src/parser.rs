use vstd::prelude::*;
use crate::decode::{
    action_of, action_opt_view, content_action, event_opt_view, kill_action, kill_of, line_event,
    line_event_exec,
};
use crate::event::{Action, ActionView, EventView, GameEvent};
use crate::game::{Game, has_shutdown};
use crate::laws::lemma_shutdown_last;
use crate::tally::{Tally, count_in, positive};
use crate::text::chars_of;

verus! {

/// The games that are closed so far, and the one still open, as event sequences.
pub struct Segments {
    pub done: Seq<Seq<EventView>>,
    pub open: Option<Seq<EventView>>,
}

pub open spec fn start() -> Segments {
    Segments { done: Seq::empty(), open: None }
}

/// What one event does to the segmentation.
pub open spec fn step(s: Segments, e: EventView) -> Segments {
    match e.action {
        ActionView::InitGame { .. } => Segments {
            done: match s.open {
                Some(g) => s.done.push(g),
                None => s.done,
            },
            open: Some(seq![e]),
        },
        ActionView::ShutdownGame => match s.open {
            Some(g) => Segments { done: s.done.push(g.push(e)), open: None },
            None => s,
        },
        _ => match s.open {
            Some(g) => Segments { done: s.done, open: Some(g.push(e)) },
            None => s,
        },
    }
}

pub open spec fn run(s: Segments, evs: Seq<EventView>) -> Segments
    decreases evs.len(),
{
    if evs.len() == 0 {
        s
    } else {
        step(run(s, evs.drop_last()), evs.last())
    }
}

/// The closed games once the open one, if any, is closed at the end of input.
pub open spec fn flush(s: Segments) -> Seq<Seq<EventView>> {
    match s.open {
        Some(g) => s.done.push(g),
        None => s.done,
    }
}

/// The games that a whole sequence of events makes.
pub open spec fn games_of(evs: Seq<EventView>) -> Seq<Seq<EventView>> {
    flush(run(start(), evs))
}

pub open spec fn line_views(v: Seq<String>) -> Seq<Seq<char>> {
    v.map_values(|l: String| l@)
}

/// The events of the lines that hold one, in order.
pub open spec fn line_events(lines: Seq<Seq<char>>) -> Seq<EventView>
    decreases lines.len(),
{
    if lines.len() == 0 {
        Seq::empty()
    } else {
        match line_event(lines.last()) {
            Some(e) => line_events(lines.drop_last()).push(e),
            None => line_events(lines.drop_last()),
        }
    }
}

pub open spec fn init_count(evs: Seq<EventView>) -> nat
    decreases evs.len(),
{
    if evs.len() == 0 {
        0
    } else {
        init_count(evs.drop_last()) + if evs.last().action is InitGame {
            1nat
        } else {
            0nat
        }
    }
}

/// Key-wise sum of the games' kills by means.
pub open spec fn means_sum(gs: Seq<Game>, k: Seq<char>) -> nat
    decreases gs.len(),
{
    if gs.len() == 0 {
        0
    } else {
        means_sum(gs.drop_last(), k) + count_in(gs.last().kills_by_means@, k)
    }
}

/// Key-wise sum of the games' kills by player.
pub open spec fn killers_sum(gs: Seq<Game>, k: Seq<char>) -> nat
    decreases gs.len(),
{
    if gs.len() == 0 {
        0
    } else {
        killers_sum(gs.drop_last(), k) + count_in(gs.last().killers@, k)
    }
}

pub open spec fn events_sum(gs: Seq<Game>) -> nat
    decreases gs.len(),
{
    if gs.len() == 0 {
        0
    } else {
        events_sum(gs.drop_last()) + gs.last().events@.len()
    }
}

/// A closed game holds a shutdown at most as its last event; the open one holds none.
pub open spec fn segments_ok(s: Segments) -> bool {
    &&& forall|i: int|
        0 <= i < s.done.len() ==> #[trigger] s.done[i].len() >= 1 && !has_shutdown(
            s.done[i].drop_last(),
        )
    &&& match s.open {
        Some(g) => g.len() >= 1 && !has_shutdown(g),
        None => true,
    }
}

proof fn lemma_step_ok(s: Segments, e: EventView)
    requires
        segments_ok(s),
    ensures
        segments_ok(step(s, e)),
{
    let t = step(s, e);
    match e.action {
        ActionView::InitGame { .. } => {
            assert(!has_shutdown(seq![e]));
            if let Some(g) = s.open {
                assert(g.push(e).drop_last() =~= g);
                assert(s.done.push(g)[s.done.len() as int] == g);
                assert(forall|i: int| 0 <= i < s.done.len() ==> s.done.push(g)[i] == s.done[i]);
                assert(has_shutdown(g.drop_last()) ==> has_shutdown(g)) by {
                    if has_shutdown(g.drop_last()) {
                        let i = choose|i: int|
                            0 <= i < g.drop_last().len() && g.drop_last()[i].action is ShutdownGame;
                        assert(g[i] == g.drop_last()[i]);
                    }
                }
            }
        },
        ActionView::ShutdownGame => {
            if let Some(g) = s.open {
                assert(g.push(e).drop_last() =~= g);
                assert(forall|i: int|
                    0 <= i < s.done.len() ==> s.done.push(g.push(e))[i] == s.done[i]);
            }
        },
        _ => {
            if let Some(g) = s.open {
                assert(!has_shutdown(g.push(e))) by {
                    if has_shutdown(g.push(e)) {
                        let i = choose|i: int|
                            0 <= i < g.push(e).len() && g.push(e)[i].action is ShutdownGame;
                        if i < g.len() {
                            assert(g[i] == g.push(e)[i]);
                        }
                    }
                }
            }
        },
    }
}

pub proof fn lemma_run_ok(s: Segments, evs: Seq<EventView>)
    requires
        segments_ok(s),
    ensures
        segments_ok(run(s, evs)),
    decreases evs.len(),
{
    if evs.len() > 0 {
        lemma_run_ok(s, evs.drop_last());
        lemma_step_ok(run(s, evs.drop_last()), evs.last());
    }
}

proof fn lemma_run_push(s: Segments, evs: Seq<EventView>, e: EventView)
    ensures
        run(s, evs.push(e)) == step(run(s, evs), e),
{
    assert(evs.push(e).drop_last() =~= evs);
}

proof fn lemma_means_push(gs: Seq<Game>, g: Game, k: Seq<char>)
    ensures
        means_sum(gs.push(g), k) == means_sum(gs, k) + count_in(g.kills_by_means@, k),
        killers_sum(gs.push(g), k) == killers_sum(gs, k) + count_in(g.killers@, k),
        events_sum(gs.push(g)) == events_sum(gs) + g.events@.len(),
{
    assert(gs.push(g).drop_last() =~= gs);
}

proof fn lemma_sums_bounded(gs: Seq<Game>, k: Seq<char>)
    requires
        forall|i: int| 0 <= i < gs.len() ==> #[trigger] gs[i].wf(),
    ensures
        means_sum(gs, k) <= events_sum(gs),
        killers_sum(gs, k) <= events_sum(gs),
        (forall|i: int| 0 <= i < gs.len() ==> #[trigger] gs[i].events@.len() >= 1) ==> gs.len()
            <= events_sum(gs),
    decreases gs.len(),
{
    if gs.len() > 0 {
        let g = gs.last();
        assert(gs[gs.len() - 1].wf());
        assert(forall|i: int| 0 <= i < gs.len() - 1 ==> gs.drop_last()[i] == gs[i]);
        lemma_sums_bounded(gs.drop_last(), k);
        crate::game::lemma_counts_bounded(g.evs(), k);
        assert(count_in(g.kills_by_means@, k) == crate::game::method_count(g.evs(), k));
        assert(count_in(g.killers@, k) == crate::game::killer_count(g.evs(), k));
        assert(g.evs().len() == g.events@.len());
        if forall|i: int| 0 <= i < gs.len() ==> #[trigger] gs[i].events@.len() >= 1 {
            assert(gs[gs.len() - 1].events@.len() >= 1);
        }
    }
}

/// Splits a log into games and keeps running totals over the closed ones.
#[derive(Debug)]
pub struct LogParser {
    games: Vec<Game>,
    current_game: Option<Game>,
    game_counter: u32,
    overall_kills_by_means: Tally,
    overall_killers: Tally,
}

impl LogParser {
    pub closed spec fn games_view(&self) -> Seq<Game> {
        self.games@
    }

    pub closed spec fn current_view(&self) -> Option<Game> {
        self.current_game
    }

    pub closed spec fn overall_means_view(&self) -> Map<Seq<char>, nat> {
        self.overall_kills_by_means@
    }

    pub closed spec fn overall_killers_view(&self) -> Map<Seq<char>, nat> {
        self.overall_killers@
    }

    /// The games as event sequences: the closed ones and the open one.
    pub open spec fn segments(&self) -> Segments {
        Segments {
            done: self.games_view().map_values(|g: Game| g.evs()),
            open: match self.current_view() {
                Some(g) => Some(g.evs()),
                None => None,
            },
        }
    }

    /// All events held by the closed games and the open one.
    pub open spec fn total_events(&self) -> nat {
        events_sum(self.games_view()) + match self.current_view() {
            Some(g) => g.events@.len(),
            None => 0,
        }
    }

    pub closed spec fn wf(&self) -> bool {
        &&& forall|i: int|
            0 <= i < self.games@.len() ==> #[trigger] self.games@[i].wf() && self.games@[i].id == i
                + 1 && self.games@[i].events@.len() >= 1
        &&& match self.current_game {
            Some(g) => g.wf() && g.id == self.games@.len() + 1 && g.events@.len() >= 1,
            None => true,
        }
        &&& self.game_counter == self.games@.len() + if self.current_game is Some {
            1int
        } else {
            0int
        }
        &&& self.overall_kills_by_means.wf()
        &&& self.overall_killers.wf()
        &&& forall|k: Seq<char>| #[trigger]
            count_in(self.overall_kills_by_means@, k) == means_sum(self.games@, k)
        &&& forall|k: Seq<char>| #[trigger]
            count_in(self.overall_killers@, k) == killers_sum(self.games@, k)
        &&& self.total_events() <= u32::MAX
        &&& segments_ok(self.segments())
    }

    pub fn new() -> (r: LogParser)
        ensures
            r.wf(),
            r.segments() == start(),
            r.total_events() == 0,
    {
        let r = LogParser {
            games: Vec::new(),
            current_game: None,
            game_counter: 0,
            overall_kills_by_means: Tally::new(),
            overall_killers: Tally::new(),
        };
        assert(r.segments().done =~= Seq::<Seq<EventView>>::empty());
        r
    }

    /// Decodes one log line into an event.
    pub fn parse_line(&self, line: &str) -> (r: Option<GameEvent>)
        ensures
            event_opt_view(r) == line_event(line@),
    {
        line_event_exec(line)
    }

    /// Decodes the content of a line, after its clock text.
    pub fn parse_action(&self, content: &str) -> (r: Option<Action>)
        ensures
            action_opt_view(r) == action_of(content@),
    {
        content_action(&chars_of(content))
    }

    /// Decodes the text after `Kill:`.
    pub fn parse_kill_action(&self, details: &str) -> (r: Option<Action>)
        ensures
            action_opt_view(r) == kill_of(details@),
    {
        kill_action(&chars_of(details))
    }

    /// Adds the game's counts to the running totals.
    fn update_overall_stats(&mut self, game: &Game)
        requires
            old(self).overall_kills_by_means.wf(),
            old(self).overall_killers.wf(),
            game.wf(),
            forall|k: Seq<char>|
                count_in(old(self).overall_kills_by_means@, k) + count_in(game.kills_by_means@, k)
                    <= u32::MAX,
            forall|k: Seq<char>|
                count_in(old(self).overall_killers@, k) + count_in(game.killers@, k) <= u32::MAX,
        ensures
            final(self).overall_kills_by_means.wf(),
            final(self).overall_killers.wf(),
            forall|k: Seq<char>| #[trigger]
                count_in(final(self).overall_kills_by_means@, k) == count_in(
                    old(self).overall_kills_by_means@,
                    k,
                ) + count_in(game.kills_by_means@, k),
            forall|k: Seq<char>| #[trigger]
                count_in(final(self).overall_killers@, k) == count_in(old(self).overall_killers@, k)
                    + count_in(game.killers@, k),
            final(self).games == old(self).games,
            final(self).current_game == old(self).current_game,
            final(self).game_counter == old(self).game_counter,
    {
        self.overall_kills_by_means.add_all(&game.kills_by_means);
        self.overall_killers.add_all(&game.killers);
    }

    /// Closes `game`: adds it to the totals and to the closed games.
    fn close_game(&mut self, game: Game)
        requires
            old(self).current_game is None,
            game.wf(),
            game.id == old(self).games@.len() + 1,
            game.events@.len() >= 1,
            old(self).game_counter == old(self).games@.len() + 1,
            events_sum(old(self).games@) + game.events@.len() <= u32::MAX,
            forall|i: int|
                0 <= i < old(self).games@.len() ==> #[trigger] old(self).games@[i].wf()
                    && old(self).games@[i].id == i + 1 && old(self).games@[i].events@.len() >= 1,
            old(self).overall_kills_by_means.wf(),
            old(self).overall_killers.wf(),
            forall|k: Seq<char>| #[trigger]
                count_in(old(self).overall_kills_by_means@, k) == means_sum(old(self).games@, k),
            forall|k: Seq<char>| #[trigger]
                count_in(old(self).overall_killers@, k) == killers_sum(old(self).games@, k),
            segments_ok(
                Segments { done: old(self).segments().done.push(game.evs()), open: None },
            ),
        ensures
            final(self).wf(),
            final(self).games@ == old(self).games@.push(game),
            final(self).current_game is None,
            final(self).segments() == (Segments {
                done: old(self).segments().done.push(game.evs()),
                open: None,
            }),
            final(self).total_events() == events_sum(old(self).games@) + game.events@.len(),
    {
        proof {
            assert forall|k: Seq<char>|
                count_in(self.overall_kills_by_means@, k) + count_in(game.kills_by_means@, k)
                    <= u32::MAX && count_in(self.overall_killers@, k) + count_in(game.killers@, k)
                    <= u32::MAX by {
                lemma_sums_bounded(self.games@, k);
                crate::game::lemma_counts_bounded(game.evs(), k);
            }
        }
        self.update_overall_stats(&game);
        let ghost gs = self.games@;
        self.games.push(game);
        proof {
            assert forall|k: Seq<char>|
                #![auto]
                count_in(self.overall_kills_by_means@, k) == means_sum(self.games@, k)
                    && count_in(self.overall_killers@, k) == killers_sum(self.games@, k) by {
                lemma_means_push(gs, game, k);
            }
            lemma_means_push(gs, game, Seq::empty());
            assert(self.segments().done =~= old(self).segments().done.push(game.evs()));
        }
    }

    /// Feeds one event to the segmenter.
    pub fn handle_event(&mut self, event: GameEvent)
        requires
            old(self).wf(),
            old(self).total_events() < u32::MAX,
        ensures
            final(self).wf(),
            final(self).segments() == step(old(self).segments(), event@),
            final(self).total_events() <= old(self).total_events() + 1,
            final(self).games_view().len() + (if final(self).current_view() is Some {
                1int
            } else {
                0int
            }) == old(self).games_view().len() + (if old(self).current_view() is Some {
                1int
            } else {
                0int
            }) + (if event@.action is InitGame {
                1int
            } else {
                0int
            }),
            forall|i: int|
                0 <= i < final(self).games_view().len() ==> (#[trigger] final(self).games_view()[i]).completed
                    == (final(self).games_view()[i].evs().last().action is ShutdownGame),
            forall|k: Seq<char>| #[trigger]
                count_in(final(self).overall_means_view(), k) == means_sum(final(self).games_view(), k),
            forall|k: Seq<char>| #[trigger]
                count_in(final(self).overall_killers_view(), k) == killers_sum(
                    final(self).games_view(),
                    k,
                ),
    {
        proof {
            lemma_step_ok(self.segments(), event@);
            assert forall|i: int| 0 <= i < self.games@.len() implies #[trigger]
                self.games@[i].events@.len() >= 1 by {
                assert(self.games@[i].wf());
            }
            assert forall|i: int| 0 <= i < self.games@.len() implies #[trigger]
                self.games@[i].wf() && self.games@[i].id == i + 1 && self.games@[i].events@.len()
                >= 1 by {
                assert(self.games@[i].wf());
            }
            lemma_sums_bounded(self.games@, Seq::empty());
        }
        let ghost s0 = self.segments();
        let ghost t0 = self.total_events();
        let is_init = if let Action::InitGame { .. } = &event.action {
            true
        } else {
            false
        };
        let is_shutdown = if let Action::ShutdownGame = &event.action {
            true
        } else {
            false
        };
        if is_init {
            if let Some(game) = self.current_game.take() {
                self.close_game(game);
            }
            self.game_counter = self.game_counter + 1;
            let mut new_game = Game::new(self.game_counter);
            new_game.add_event(event);
            self.current_game = Some(new_game);
            proof {
                assert(new_game.evs() =~= seq![event@]);
            }
        } else if is_shutdown {
            if let Some(mut game) = self.current_game.take() {
                game.add_event(event);
                self.close_game(game);
            }
        } else {
            if let Some(mut game) = self.current_game.take() {
                game.add_event(event);
                self.current_game = Some(game);
            }
        }
        proof {
            assert(self.segments().done.len() == self.games_view().len());
            assert(s0.done.len() == old(self).games_view().len());
            lemma_parser_completed(self);
            lemma_overall_is_sum(self);
        }
    }

    /// Closes the open game, if any, at the end of input.
    pub fn finish(&mut self)
        requires
            old(self).wf(),
        ensures
            final(self).wf(),
            final(self).segments() == (Segments { done: flush(old(self).segments()), open: None }),
            final(self).total_events() == old(self).total_events(),
    {
        if let Some(game) = self.current_game.take() {
            self.close_game(game);
        } else {
            assert(self.segments().done == flush(old(self).segments()));
        }
    }

    /// Feeds every line to the segmenter, then closes the open game.
    pub fn parse_lines(&mut self, lines: &Vec<String>)
        requires
            old(self).wf(),
            old(self).total_events() + lines@.len() <= u32::MAX,
        ensures
            final(self).wf(),
            final(self).segments() == (Segments {
                done: flush(run(old(self).segments(), line_events(line_views(lines@)))),
                open: None,
            }),
            old(self).segments() == start() ==> final(self).games_view().len() == init_count(
                line_events(line_views(lines@)),
            ),
            forall|i: int|
                0 <= i < final(self).games_view().len() ==> (#[trigger] final(self).games_view()[i]).completed
                    == (final(self).games_view()[i].evs().last().action is ShutdownGame),
            forall|k: Seq<char>| #[trigger]
                count_in(final(self).overall_means_view(), k) == means_sum(final(self).games_view(), k),
            forall|k: Seq<char>| #[trigger]
                count_in(final(self).overall_killers_view(), k) == killers_sum(
                    final(self).games_view(),
                    k,
                ),
    {
        let ghost s0 = self.segments();
        let ghost lv = line_views(lines@);
        let mut i: usize = 0;
        while i < lines.len()
            invariant
                self.wf(),
                i <= lines@.len(),
                lv == line_views(lines@),
                self.segments() == run(s0, line_events(lv.subrange(0, i as int))),
                self.total_events() <= old(self).total_events() + i,
                old(self).total_events() + lines@.len() <= u32::MAX,
            decreases lines.len() - i,
        {
            let ghost pre = lv.subrange(0, i as int);
            let ghost nxt = lv.subrange(0, i + 1);
            assert(nxt.drop_last() =~= pre);
            assert(nxt.last() == lines@[i as int]@);
            if let Some(event) = self.parse_line(lines[i].as_str()) {
                proof {
                    lemma_run_push(s0, line_events(pre), event@);
                }
                self.handle_event(event);
            }
            i = i + 1;
        }
        assert(lv.subrange(0, i as int) =~= lv);
        self.finish();
        proof {
            assert(self.segments().done.len() == self.games_view().len());
            crate::laws::lemma_one_game_per_init(line_events(lv));
            lemma_parser_completed(self);
            lemma_overall_is_sum(self);
        }
    }

    /// The closed games, in order.
    pub fn get_games(&self) -> (r: &[Game])
        requires
            self.wf(),
        ensures
            r@ == self.games_view(),
            forall|i: int| 0 <= i < r@.len() ==> (#[trigger] r@[i]).wf() && r@[i].id == i + 1,
    {
        assert forall|i: int| 0 <= i < self.games@.len() implies (#[trigger] self.games@[i]).wf()
            && self.games@[i].id == i + 1 by {
            assert(self.games@[i].wf());
        }
        self.games.as_slice()
    }

    /// The game still open, if any.
    pub fn current_game(&self) -> (r: Option<&Game>)
        requires
            self.wf(),
        ensures
            match r {
                Some(g) => g.wf() && g.id == self.games_view().len() + 1,
                None => true,
            },
            match r {
                Some(g) => self.current_view() == Some(*g),
                None => self.current_view() is None,
            },
    {
        match &self.current_game {
            Some(g) => Some(g),
            None => None,
        }
    }

    /// Kills by means summed over the closed games.
    pub fn overall_kills_by_means(&self) -> (r: &Tally)
        requires
            self.wf(),
        ensures
            r.wf(),
            r@ == self.overall_means_view(),
    {
        &self.overall_kills_by_means
    }

    /// Kills by player summed over the closed games.
    pub fn overall_killers(&self) -> (r: &Tally)
        requires
            self.wf(),
        ensures
            r.wf(),
            r@ == self.overall_killers_view(),
    {
        &self.overall_killers
    }
}

/// In a parser's state, a closed game is completed exactly when its last event
/// is a `ShutdownGame`, and the open game is never completed.
pub proof fn lemma_parser_completed(p: &LogParser)
    requires
        p.wf(),
    ensures
        forall|i: int|
            0 <= i < p.games_view().len() ==> (#[trigger] p.games_view()[i]).completed == (
            p.games_view()[i].evs().last().action is ShutdownGame),
        match p.current_view() {
            Some(g) => !g.completed,
            None => true,
        },
{
    let s = p.segments();
    assert forall|i: int| 0 <= i < p.games_view().len() implies (#[trigger] p.games_view()[
        i]).completed == (p.games_view()[i].evs().last().action is ShutdownGame) by {
        assert(p.games_view()[i].wf());
        assert(s.done[i] == p.games_view()[i].evs());
        assert(s.done[i].len() >= 1);
        lemma_shutdown_last(s.done[i]);
    }
}

/// The overall tallies are the key-wise sums of the closed games' tallies.
pub proof fn lemma_overall_is_sum(p: &LogParser)
    requires
        p.wf(),
    ensures
        forall|k: Seq<char>| #[trigger]
            count_in(p.overall_means_view(), k) == means_sum(p.games_view(), k),
        forall|k: Seq<char>| #[trigger]
            count_in(p.overall_killers_view(), k) == killers_sum(p.games_view(), k),
        positive(p.overall_means_view()),
        positive(p.overall_killers_view()),
{
    p.overall_kills_by_means.lemma_positive();
    p.overall_killers.lemma_positive();
}

} // verus!
