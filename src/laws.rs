use vstd::prelude::*;
use crate::event::{ActionView, EventView};
use crate::game::{Game, has_shutdown, killer_count, method_count, world};
use crate::decode::{
    action_of, by_tail, first_split, kill_desc, kill_of, kill_split, lemma_find_to, three_words,
    tried_before,
};
use crate::tally::count_in;
use crate::text::{
    decimal, is_digit, is_ws, u32_of, lemma_decimal, lemma_skip_word_to, lemma_skip_ws, lemma_skip_ws_to,
    no_newline, occurs_at, skip_ws, trim, trim_end_len,
};
use crate::parser::{games_of, init_count, lemma_run_ok, run, start};

verus! {

proof fn lemma_run_count(evs: Seq<EventView>)
    ensures
        run(start(), evs).done.len() + (if run(start(), evs).open is Some {
            1int
        } else {
            0int
        }) == init_count(evs),
    decreases evs.len(),
{
    if evs.len() > 0 {
        lemma_run_count(evs.drop_last());
    }
}

/// Each `InitGame` opens one game and every game is closed in the end, so a
/// log yields as many games as it holds `InitGame` events.
pub proof fn lemma_one_game_per_init(evs: Seq<EventView>)
    ensures
        games_of(evs).len() == init_count(evs),
{
    lemma_run_count(evs);
}

pub proof fn lemma_shutdown_last(g: Seq<EventView>)
    requires
        g.len() >= 1,
    ensures
        has_shutdown(g) == (has_shutdown(g.drop_last()) || g.last().action is ShutdownGame),
{
    if has_shutdown(g) && !(g.last().action is ShutdownGame) {
        let i = choose|i: int| 0 <= i < g.len() && g[i].action is ShutdownGame;
        assert(g.drop_last()[i] == g[i]);
    }
    if has_shutdown(g.drop_last()) {
        let i = choose|i: int| 0 <= i < g.drop_last().len() && g.drop_last()[i].action is ShutdownGame;
        assert(g[i] == g.drop_last()[i]);
    }
    if g.last().action is ShutdownGame {
        assert(g[g.len() - 1].action is ShutdownGame);
    }
}

/// A game holds a `ShutdownGame` exactly when one closed it: a game closed by
/// the next `InitGame`, or at the end of input, holds none.
pub proof fn lemma_completed_iff_closed_by_shutdown(evs: Seq<EventView>)
    ensures
        forall|i: int|
            0 <= i < games_of(evs).len() ==> #[trigger] games_of(evs)[i].len() >= 1 && (has_shutdown(
                games_of(evs)[i],
            ) <==> games_of(evs)[i].last().action is ShutdownGame),
{
    let s = run(start(), evs);
    lemma_run_ok(start(), evs);
    let gs = games_of(evs);
    assert forall|i: int| 0 <= i < gs.len() implies #[trigger] gs[i].len() >= 1 && (has_shutdown(
        gs[i],
    ) <==> gs[i].last().action is ShutdownGame) by {
        if i < s.done.len() {
            assert(gs[i] == s.done[i]);
            assert(s.done[i].len() >= 1);
            lemma_shutdown_last(gs[i]);
        } else {
            let g = s.open->0;
            assert(gs[i] == g);
            lemma_shutdown_last(g);
            if g.last().action is ShutdownGame {
                assert(g[g.len() - 1].action is ShutdownGame);
            }
        }
    }
}

proof fn lemma_world_count_zero(evs: Seq<EventView>)
    ensures
        killer_count(evs, world()) == 0,
    decreases evs.len(),
{
    if evs.len() > 0 {
        lemma_world_count_zero(evs.drop_last());
    }
}

/// `<world>` is never a key of a game's killers.
pub proof fn lemma_world_never_a_killer(g: &Game)
    requires
        g.wf(),
    ensures
        !g.killers@.contains_key(world()),
{
    lemma_world_count_zero(g.evs());
    g.killers.lemma_positive();
    assert(count_in(g.killers@, world()) == killer_count(g.evs(), world()));
}

/// Every kill adds one to the count of its means, whoever the attacker,
/// `<world>` included; a `<world>` kill adds to no player's count.
pub proof fn lemma_kill_counted_by_means(evs: Seq<EventView>, e: EventView)
    requires
        e.action is Kill,
    ensures
        method_count(evs.push(e), e.action->Kill_method) == method_count(
            evs,
            e.action->Kill_method,
        ) + 1,
        e.action->Kill_player_name == world() ==> forall|p: Seq<char>| #[trigger]
            killer_count(evs.push(e), p) == killer_count(evs, p),
{
    assert(evs.push(e).drop_last() =~= evs);
}

/// A name that a kill line can carry: not empty, on one line, and with no
/// whitespace at either end.
pub open spec fn name_ok(s: Seq<char>) -> bool {
    s.len() > 0 && no_newline(s) && !is_ws(s[0]) && !is_ws(s.last())
}

/// `w` stands at `j` as a word of its own: followed by whitespace or the end of `s`.
pub open spec fn free_word_at(s: Seq<char>, j: int, w: Seq<char>) -> bool {
    occurs_at(s, j, w) && (j + w.len() == s.len() || is_ws(s[j + w.len()]))
}

/// Somewhere in `s`, whitespace is followed by the word `w`.
pub open spec fn has_free_word(s: Seq<char>, w: Seq<char>) -> bool {
    exists|i: int| 0 <= i < s.len() && is_ws(s[i]) && #[trigger] free_word_at(s, skip_ws(s, i), w)
}

proof fn lemma_desc_round_trip(a: Seq<char>, b: Seq<char>, m: Seq<char>)
    requires
        name_ok(a),
        name_ok(b),
        name_ok(m),
        !has_free_word(a, "killed"@),
        !has_free_word(b, "by"@),
    ensures
        kill_desc(desc_text(a, b, m)) == Some((a, b, m)),
{
    reveal_strlit(" killed ");
    reveal_strlit(" by ");
    reveal_strlit("killed");
    reveal_strlit("by");
    let t = desc_text(a, b, m);
    let la = a.len() as int;
    let lb = b.len() as int;
    let lm = m.len() as int;
    let j = la + 1;
    let k = la + 8;
    let e = la + 8 + lb;
    let f = e + 1;
    let g = e + 4;
    assert(t.len() == g + lm);
    assert(forall|i: int| 0 <= i < la ==> t[i] == a[i]);
    assert(forall|i: int| 0 <= i < lb ==> t[k + i] == b[i]);
    assert(forall|i: int| 0 <= i < lm ==> t[g + i] == m[i]);
    assert(t[la] == ' ' && t[la + 7] == ' ' && t[e] == ' ' && t[e + 3] == ' ');
    assert(t.subrange(j, j + 6) =~= "killed"@);
    assert(t.subrange(f, f + 2) =~= "by"@);
    assert(t[j] == 'k' && t[f] == 'b');
    assert(t[k] == b[0] && t[g] == m[0]);
    lemma_skip_ws_to(t, la, j);
    lemma_skip_ws_to(t, j + 6, k);
    lemma_skip_ws_to(t, e, f);
    lemma_skip_ws_to(t, f + 2, g);
    assert(t.subrange(0, la) =~= a);
    assert(t.subrange(k, e) =~= b);
    assert(t.subrange(g, t.len() as int) =~= m);
    assert(by_tail(t, e));
    assert(kill_split(t, la, k, e));
    assert forall|a2: int, k2: int, e2: int| #[trigger] kill_split(t, a2, k2, e2) implies tried_before(
        la,
        k,
        e,
        a2,
        k2,
        e2,
    ) by {
        if a2 < la {
            let j2 = skip_ws(t, a2);
            lemma_skip_ws(t, a2);
            assert(t[la - 1] == a[la - 1]);
            assert(j2 < la);
            lemma_skip_ws_to(a, a2, j2);
            if j2 + 6 > la {
                assert(t.subrange(j2, j2 + 6)[la - j2] == t[la]);
            }
            assert(a.subrange(j2, j2 + 6) =~= t.subrange(j2, j2 + 6));
            let k2 = skip_ws(t, j2 + 6);
            lemma_skip_ws(t, j2 + 6);
            assert(is_ws(t[j2 + 6]));
            assert(free_word_at(a, skip_ws(a, a2), "killed"@));
            assert(is_ws(a[a2]));
        } else if a2 == la && k2 == k && e2 < e {
            let f2 = skip_ws(t, e2);
            lemma_skip_ws(t, e2);
            assert(t[e - 1] == b[lb - 1]);
            assert(f2 < e);
            let bi = e2 - k;
            assert(is_ws(b[bi]));
            assert forall|x: int| bi <= x < f2 - k implies is_ws(#[trigger] b[x]) by {
                assert(t[k + x] == b[x]);
            }
            if f2 - k < lb {
                assert(t[f2] == b[f2 - k]);
            }
            lemma_skip_ws_to(b, bi, f2 - k);
            if f2 + 2 > e {
                assert(t.subrange(f2, f2 + 2)[e - f2] == t[e]);
            }
            assert(b.subrange(f2 - k, f2 - k + 2) =~= t.subrange(f2, f2 + 2));
            lemma_skip_ws(t, f2 + 2);
            assert(is_ws(t[f2 + 2]));
            if f2 + 2 < e {
                assert(t[f2 + 2] == b[f2 + 2 - k]);
            }
            assert(free_word_at(b, skip_ws(b, bi), "by"@));
        }
    }
    assert(first_split(t, la, k, e));
    let (a1, k1, e1) = choose|a1: int, k1: int, e1: int| first_split(t, a1, k1, e1);
    assert(kill_split(t, a1, k1, e1));
    assert(a1 == la && k1 == k && e1 == e);
}

/// The content of a kill line: three ids, a colon, then the description.
pub open spec fn kill_content(
    kill_id: u32,
    player_id: u32,
    victim_id: u32,
    a: Seq<char>,
    b: Seq<char>,
    m: Seq<char>,
) -> Seq<char> {
    "Kill: "@ + (ids_text(kill_id, player_id, victim_id) + ": "@ + desc_text(a, b, m))
}

pub open spec fn desc_text(a: Seq<char>, b: Seq<char>, m: Seq<char>) -> Seq<char> {
    a + " killed "@ + b + " by "@ + m
}

pub open spec fn ids_text(kill_id: u32, player_id: u32, victim_id: u32) -> Seq<char> {
    decimal(kill_id as nat) + " "@ + decimal(player_id as nat) + " "@ + decimal(victim_id as nat)
}

proof fn lemma_ids_text(kill_id: u32, player_id: u32, victim_id: u32)
    ensures
        three_words(ids_text(kill_id, player_id, victim_id)) == Some(
            (decimal(kill_id as nat), decimal(player_id as nat), decimal(victim_id as nat)),
        ),
        forall|i: int|
            0 <= i < ids_text(kill_id, player_id, victim_id).len() ==> #[trigger] ids_text(
                kill_id,
                player_id,
                victim_id,
            )[i] != ':',
{
    reveal_strlit(" ");
    lemma_decimal(kill_id as nat);
    lemma_decimal(player_id as nat);
    lemma_decimal(victim_id as nat);
    let x1 = decimal(kill_id as nat);
    let x2 = decimal(player_id as nat);
    let x3 = decimal(victim_id as nat);
    let ids = ids_text(kill_id, player_id, victim_id);
    let (l1, l2, l3) = (x1.len() as int, x2.len() as int, x3.len() as int);
    let li = ids.len() as int;
    assert(li == l1 + l2 + l3 + 2);
    assert(forall|i: int| 0 <= i < l1 ==> ids[i] == x1[i]);
    assert(forall|i: int| 0 <= i < l2 ==> ids[l1 + 1 + i] == x2[i]);
    assert(forall|i: int| 0 <= i < l3 ==> ids[l1 + l2 + 2 + i] == x3[i]);
    assert(ids[l1] == ' ' && ids[l1 + 1 + l2] == ' ');
    assert forall|i: int| 0 <= i < li implies #[trigger] ids[i] != ':' && (i != l1 && i != l1 + 1
        + l2 ==> !is_ws(ids[i])) by {
        if i < l1 {
            assert(is_digit(x1[i]));
        } else if l1 < i < l1 + 1 + l2 {
            assert(ids[i] == x2[i - l1 - 1]);
            assert(is_digit(x2[i - l1 - 1]));
        } else if l1 + 1 + l2 < i {
            assert(ids[i] == x3[i - l1 - l2 - 2]);
            assert(is_digit(x3[i - l1 - l2 - 2]));
        }
    }
    lemma_skip_ws_to(ids, 0, 0);
    lemma_skip_word_to(ids, 0, l1);
    lemma_skip_ws_to(ids, l1, l1 + 1);
    lemma_skip_word_to(ids, l1 + 1, l1 + 1 + l2);
    lemma_skip_ws_to(ids, l1 + 1 + l2, l1 + l2 + 2);
    lemma_skip_word_to(ids, l1 + l2 + 2, li);
    lemma_skip_ws_to(ids, li, li);
    assert(ids.subrange(0, l1) =~= x1);
    assert(ids.subrange(l1 + 1, l1 + 1 + l2) =~= x2);
    assert(ids.subrange(l1 + l2 + 2, li) =~= x3);
}

proof fn lemma_kill_of_parts(
    ids: Seq<char>,
    desc: Seq<char>,
    kill_id: u32,
    player_id: u32,
    victim_id: u32,
    a: Seq<char>,
    b: Seq<char>,
    m: Seq<char>,
)
    requires
        three_words(ids) == Some(
            (decimal(kill_id as nat), decimal(player_id as nat), decimal(victim_id as nat)),
        ),
        forall|i: int| 0 <= i < ids.len() ==> #[trigger] ids[i] != ':',
        u32_of(decimal(kill_id as nat)) == Some(kill_id),
        u32_of(decimal(player_id as nat)) == Some(player_id),
        u32_of(decimal(victim_id as nat)) == Some(victim_id),
        kill_desc(desc) == Some((a, b, m)),
        desc.len() > 0,
        !is_ws(desc[0]),
        !is_ws(desc.last()),
    ensures
        kill_of(ids + ": "@ + desc) == Some(
            ActionView::Kill {
                kill_id,
                player_id,
                victim_id,
                player_name: a,
                victim_name: b,
                method: m,
            },
        ),
{
    reveal_strlit(": ");
    reveal_strlit(" ");
    let d = ids + ": "@ + desc;
    let li = ids.len() as int;
    assert forall|i: int| 0 <= i < li implies #[trigger] d[i] != ':' by {
        assert(d[i] == ids[i]);
    }
    assert(d[li] == ':');
    lemma_find_to(d, ':', 0, li);
    assert(d.subrange(0, li) =~= ids);
    let rest = d.subrange(li + 1, d.len() as int);
    assert(rest =~= " "@ + desc);
    assert(rest[1] == desc[0]);
    lemma_skip_ws_to(rest, 0, 1);
    assert(rest.last() == desc.last());
    assert(trim_end_len(rest, rest.len() as int) == rest.len());
    assert(trim(rest) =~= desc);
}

proof fn lemma_not_prefix(c: Seq<char>, p: Seq<char>)
    requires
        c.len() > 0,
        p.len() > 0,
        c[0] != p[0],
    ensures
        !occurs_at(c, 0, p),
{
    if p.len() <= c.len() {
        assert(c.subrange(0, p.len() as int)[0] == c[0]);
    }
}

proof fn lemma_action_of_kill(d: Seq<char>)
    requires
        d.len() > 0,
        !is_ws(d[0]),
        !is_ws(d.last()),
    ensures
        action_of("Kill: "@ + d) == kill_of(d),
{
    reveal_strlit("Kill: ");
    reveal_strlit("Kill:");
    reveal_strlit("InitGame:");
    reveal_strlit("ShutdownGame:");
    reveal_strlit("ClientConnect:");
    reveal_strlit("ClientUserinfoChanged:");
    reveal_strlit("ClientBegin:");
    reveal_strlit("ClientDisconnect:");
    reveal_strlit("Item:");
    reveal_strlit(" ");
    let c = "Kill: "@ + d;
    let r = c.subrange(5, c.len() as int);
    assert(r =~= " "@ + d);
    assert(r[1] == d[0]);
    lemma_skip_ws_to(r, 0, 1);
    assert(r.last() == d.last());
    assert(trim_end_len(r, r.len() as int) == r.len());
    assert(trim(r) =~= d);
    assert(c[0] == 'K');
    lemma_not_prefix(c, "InitGame:"@);
    assert(c != "ShutdownGame:"@);
    lemma_not_prefix(c, "ClientConnect:"@);
    lemma_not_prefix(c, "ClientUserinfoChanged:"@);
    lemma_not_prefix(c, "ClientBegin:"@);
    lemma_not_prefix(c, "ClientDisconnect:"@);
    lemma_not_prefix(c, "Item:"@);
    assert(occurs_at(c, 0, "Kill:"@)) by {
        assert(c.subrange(0, 5) =~= "Kill:"@);
    }
}

/// Decoding the content of a kill line gives back its ids and names, for
/// names on one line without whitespace at their ends, where no whitespace
/// in the attacker's name precedes the word `killed` and none in the victim's
/// name precedes the word `by`.
pub proof fn lemma_kill_round_trip(
    kill_id: u32,
    player_id: u32,
    victim_id: u32,
    a: Seq<char>,
    b: Seq<char>,
    m: Seq<char>,
)
    requires
        name_ok(a),
        name_ok(b),
        name_ok(m),
        !has_free_word(a, "killed"@),
        !has_free_word(b, "by"@),
    ensures
        action_of(kill_content(kill_id, player_id, victim_id, a, b, m)) == Some(
            ActionView::Kill {
                kill_id,
                player_id,
                victim_id,
                player_name: a,
                victim_name: b,
                method: m,
            },
        ),
{
    reveal_strlit(": ");
    let ids = ids_text(kill_id, player_id, victim_id);
    let desc = desc_text(a, b, m);
    let d = ids + ": "@ + desc;
    lemma_desc_round_trip(a, b, m);
    lemma_ids_text(kill_id, player_id, victim_id);
    lemma_decimal(kill_id as nat);
    lemma_decimal(player_id as nat);
    lemma_decimal(victim_id as nat);
    assert(desc.len() > 0 && desc[0] == a[0] && desc.last() == m.last());
    lemma_kill_of_parts(ids, desc, kill_id, player_id, victim_id, a, b, m);
    assert(d[0] == ids[0] && ids[0] == decimal(kill_id as nat)[0]);
    assert(crate::text::is_digit(d[0]));
    assert(d.last() == desc.last());
    lemma_action_of_kill(d);
}

} // verus!
