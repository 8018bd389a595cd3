use vstd::prelude::*;
use crate::event::{Action, ActionView, EventView, GameEvent};
use crate::text::{
    chars_of, is_digit, is_digit_char, is_ws, is_ws_char, lemma_skip_ws, lemma_skip_word,
    no_newline, no_newline_in, occurs_at, occurs_at_exec, parse_u32, skip_word, skip_word_from,
    skip_ws, skip_ws_from, slice, string_of, trim, trim_chars, u32_of,
};

verus! {

/// The first index at or after `i` that holds `c` (or the length).
pub open spec fn find_from(s: Seq<char>, c: char, i: int) -> int
    decreases s.len() - i,
{
    if 0 <= i < s.len() && s[i] != c {
        find_from(s, c, i + 1)
    } else {
        i
    }
}

/// `s` cut at the first `c`, which belongs to neither part.
pub open spec fn split_once(s: Seq<char>, c: char) -> Option<(Seq<char>, Seq<char>)> {
    let i = find_from(s, c, 0);
    if i < s.len() {
        Some((s.subrange(0, i), s.subrange(i + 1, s.len() as int)))
    } else {
        None
    }
}

/// Exactly three whitespace-separated words.
pub open spec fn three_words(s: Seq<char>) -> Option<(Seq<char>, Seq<char>, Seq<char>)> {
    let b0 = skip_ws(s, 0);
    let e0 = skip_word(s, b0);
    let b1 = skip_ws(s, e0);
    let e1 = skip_word(s, b1);
    let b2 = skip_ws(s, e1);
    let e2 = skip_word(s, b2);
    if b0 < s.len() && b1 < s.len() && b2 < s.len() && skip_ws(s, e2) == s.len() {
        Some((s.subrange(b0, e0), s.subrange(b1, e1), s.subrange(b2, e2)))
    } else {
        None
    }
}

/// Cuts a trimmed line into its clock text (one or two digits, a colon, two
/// digits) and the content that follows the whitespace after it.
pub open spec fn split_line(line: Seq<char>) -> Option<(Seq<char>, Seq<char>)> {
    let t = trim(line);
    let p: int = if t.len() >= 2 && is_digit(t[0]) && t[1] == ':' {
        1
    } else if t.len() >= 3 && is_digit(t[0]) && is_digit(t[1]) && t[2] == ':' {
        2
    } else {
        0
    };
    let c = skip_ws(t, p + 3);
    if p > 0 && p + 3 < t.len() && is_digit(t[p + 1]) && is_digit(t[p + 2]) && is_ws(t[p + 3])
        && c < t.len() && no_newline(t.subrange(c, t.len() as int)) {
        Some((t.subrange(0, p + 3), t.subrange(c, t.len() as int)))
    } else {
        None
    }
}

/// What follows the keyword `p` at the start of `c`, trimmed.
pub open spec fn rest_after(c: Seq<char>, p: Seq<char>) -> Seq<char> {
    trim(c.subrange(p.len() as int, c.len() as int))
}

pub open spec fn id_and_text(s: Seq<char>) -> Option<(u32, Seq<char>)> {
    match split_once(s, ' ') {
        Some((a, b)) => match u32_of(a) {
            Some(n) => Some((n, b)),
            None => None,
        },
        None => None,
    }
}

/// The decoded action of a line's content.
pub open spec fn action_of(c: Seq<char>) -> Option<ActionView> {
    if occurs_at(c, 0, "InitGame:"@) {
        Some(ActionView::InitGame { details: rest_after(c, "InitGame:"@) })
    } else if c == "ShutdownGame:"@ {
        Some(ActionView::ShutdownGame)
    } else if occurs_at(c, 0, "ClientConnect:"@) {
        match u32_of(rest_after(c, "ClientConnect:"@)) {
            Some(n) => Some(ActionView::ClientConnect { player_id: n }),
            None => None,
        }
    } else if occurs_at(c, 0, "ClientUserinfoChanged:"@) {
        match id_and_text(rest_after(c, "ClientUserinfoChanged:"@)) {
            Some((n, info)) => Some(ActionView::ClientUserinfoChanged { player_id: n, info }),
            None => None,
        }
    } else if occurs_at(c, 0, "ClientBegin:"@) {
        match u32_of(rest_after(c, "ClientBegin:"@)) {
            Some(n) => Some(ActionView::ClientBegin { player_id: n }),
            None => None,
        }
    } else if occurs_at(c, 0, "ClientDisconnect:"@) {
        match u32_of(rest_after(c, "ClientDisconnect:"@)) {
            Some(n) => Some(ActionView::ClientDisconnect { player_id: n }),
            None => None,
        }
    } else if occurs_at(c, 0, "Item:"@) {
        match id_and_text(rest_after(c, "Item:"@)) {
            Some((n, d)) => Some(ActionView::Item { item_id: n, description: d }),
            None => None,
        }
    } else if occurs_at(c, 0, "Kill:"@) {
        kill_of(rest_after(c, "Kill:"@))
    } else {
        match split_once(c, ':') {
            Some((name, rest)) => Some(ActionView::Other { action_name: name, details: trim(rest) }),
            None => None,
        }
    }
}

/// The event of one log line, if it holds one.
pub open spec fn line_event(line: Seq<char>) -> Option<EventView> {
    match split_line(line) {
        Some((ts, c)) => match action_of(c) {
            Some(a) => Some(EventView { timestamp: ts, action: a }),
            None => None,
        },
        None => None,
    }
}

/// After the victim ends at `e`: whitespace, `by`, whitespace, and a method
/// that runs to the end of `t` with no line break.
pub open spec fn by_tail(t: Seq<char>, e: int) -> bool {
    let f = skip_ws(t, e);
    let g = skip_ws(t, f + 2);
    e < f && occurs_at(t, f, "by"@) && f + 2 < g && g < t.len() && no_newline(
        t.subrange(g, t.len() as int),
    )
}

/// `t` reads `<player> killed <victim> by <method>` with the player's name
/// ending at `a` and the victim's name at `k..e`. The victim starts inside the
/// whitespace after `killed`, past at least one whitespace character.
pub open spec fn kill_split(t: Seq<char>, a: int, k: int, e: int) -> bool {
    let j = skip_ws(t, a);
    1 <= a && a < j && no_newline(t.subrange(0, a)) && occurs_at(t, j, "killed"@) && j + 6 < k
        && k <= skip_ws(t, j + 6) && k < e && e <= t.len() && no_newline(t.subrange(k, e))
        && by_tail(t, e)
}

/// The order in which splits are tried: the shortest player name first, then
/// the latest start of the victim's name, then the shortest victim name.
pub open spec fn tried_before(a: int, k: int, e: int, a2: int, k2: int, e2: int) -> bool {
    a < a2 || (a == a2 && (k > k2 || (k == k2 && e <= e2)))
}

pub open spec fn first_split(t: Seq<char>, a: int, k: int, e: int) -> bool {
    &&& kill_split(t, a, k, e)
    &&& forall|a2: int, k2: int, e2: int| #[trigger]
        kill_split(t, a2, k2, e2) ==> tried_before(a, k, e, a2, k2, e2)
}

/// Player name, victim name and method of a trimmed kill description.
pub open spec fn kill_desc(t: Seq<char>) -> Option<(Seq<char>, Seq<char>, Seq<char>)> {
    if exists|a: int, k: int, e: int| first_split(t, a, k, e) {
        let (a, k, e) = choose|a: int, k: int, e: int| first_split(t, a, k, e);
        let g = skip_ws(t, skip_ws(t, e) + 2);
        Some((t.subrange(0, a), t.subrange(k, e), t.subrange(g, t.len() as int)))
    } else {
        None
    }
}

/// The decoded text after `Kill:`: three ids, a colon, then the description.
pub open spec fn kill_of(d: Seq<char>) -> Option<ActionView> {
    match split_once(d, ':') {
        Some((ids, desc)) => match three_words(ids) {
            Some((a, b, c)) => match (u32_of(a), u32_of(b), u32_of(c), kill_desc(trim(desc))) {
                (Some(k), Some(p), Some(v), Some((pn, vn, m))) => Some(
                    ActionView::Kill {
                        kill_id: k,
                        player_id: p,
                        victim_id: v,
                        player_name: pn,
                        victim_name: vn,
                        method: m,
                    },
                ),
                _ => None,
            },
            None => None,
        },
        None => None,
    }
}

pub open spec fn action_opt_view(r: Option<Action>) -> Option<ActionView> {
    match r {
        Some(a) => Some(a@),
        None => None,
    }
}

pub open spec fn event_opt_view(r: Option<GameEvent>) -> Option<EventView> {
    match r {
        Some(e) => Some(e@),
        None => None,
    }
}

pub proof fn lemma_find_from(s: Seq<char>, c: char, i: int)
    requires
        0 <= i <= s.len(),
    ensures
        i <= find_from(s, c, i) <= s.len(),
        forall|j: int| i <= j < find_from(s, c, i) ==> #[trigger] s[j] != c,
        find_from(s, c, i) < s.len() ==> s[find_from(s, c, i)] == c,
    decreases s.len() - i,
{
    if i < s.len() && s[i] != c {
        lemma_find_from(s, c, i + 1);
    }
}

pub proof fn lemma_find_to(s: Seq<char>, c: char, i: int, e: int)
    requires
        0 <= i <= e <= s.len(),
        forall|j: int| i <= j < e ==> #[trigger] s[j] != c,
        e == s.len() || s[e] == c,
    ensures
        find_from(s, c, i) == e,
    decreases e - i,
{
    if i < e {
        lemma_find_to(s, c, i + 1, e);
    }
}

fn find_char(s: &Vec<char>, c: char, i: usize) -> (r: usize)
    requires
        i <= s.len(),
    ensures
        r as int == find_from(s@, c, i as int),
{
    let mut j: usize = i;
    while j < s.len() && s[j] != c
        invariant
            i <= j <= s.len(),
            find_from(s@, c, j as int) == find_from(s@, c, i as int),
        decreases s.len() - j,
    {
        j = j + 1;
    }
    j
}

fn split_once_exec(s: &Vec<char>, c: char) -> (r: Option<(Vec<char>, Vec<char>)>)
    ensures
        match r {
            Some((a, b)) => split_once(s@, c) == Some((a@, b@)),
            None => split_once(s@, c) is None,
        },
{
    let i = find_char(s, c, 0);
    proof {
        lemma_find_from(s@, c, 0);
    }
    if i < s.len() {
        Some((slice(s, 0, i), slice(s, i + 1, s.len())))
    } else {
        None
    }
}

fn three_words_exec(s: &Vec<char>) -> (r: Option<(Vec<char>, Vec<char>, Vec<char>)>)
    ensures
        match r {
            Some((a, b, c)) => three_words(s@) == Some((a@, b@, c@)),
            None => three_words(s@) is None,
        },
{
    let b0 = skip_ws_from(s, 0);
    proof {
        lemma_skip_ws(s@, 0);
    }
    let e0 = skip_word_from(s, b0);
    proof {
        lemma_skip_word(s@, b0 as int);
    }
    let b1 = skip_ws_from(s, e0);
    proof {
        lemma_skip_ws(s@, e0 as int);
    }
    let e1 = skip_word_from(s, b1);
    proof {
        lemma_skip_word(s@, b1 as int);
    }
    let b2 = skip_ws_from(s, e1);
    proof {
        lemma_skip_ws(s@, e1 as int);
    }
    let e2 = skip_word_from(s, b2);
    proof {
        lemma_skip_word(s@, b2 as int);
    }
    let end = skip_ws_from(s, e2);
    if b0 < s.len() && b1 < s.len() && b2 < s.len() && end == s.len() {
        Some((slice(s, b0, e0), slice(s, b1, e1), slice(s, b2, e2)))
    } else {
        None
    }
}

fn by_tail_exec(t: &Vec<char>, e: usize, by: &Vec<char>) -> (r: bool)
    requires
        e <= t.len(),
        by@ == "by"@,
    ensures
        r == by_tail(t@, e as int),
{
    proof {
        reveal_strlit("by");
    }
    let f = skip_ws_from(t, e);
    proof {
        lemma_skip_ws(t@, e as int);
    }
    if f > e && occurs_at_exec(t, f, by) {
        let g = skip_ws_from(t, f + by.len());
        g > f + by.len() && g < t.len() && no_newline_in(t, g, t.len())
    } else {
        false
    }
}

/// The end of the shortest victim name that starts at `k`, for a player name
/// ending at `a`.
fn victim_end(t: &Vec<char>, a: usize, k: usize, by: &Vec<char>) -> (r: Option<usize>)
    requires
        k <= t.len(),
        by@ == "by"@,
        1 <= a < skip_ws(t@, a as int),
        no_newline(t@.subrange(0, a as int)),
        occurs_at(t@, skip_ws(t@, a as int), "killed"@),
        skip_ws(t@, a as int) + 6 < k <= skip_ws(t@, skip_ws(t@, a as int) + 6),
    ensures
        match r {
            Some(e) => kill_split(t@, a as int, k as int, e as int) && forall|e2: int| #[trigger]
                kill_split(t@, a as int, k as int, e2) ==> e <= e2,
            None => forall|e2: int| !#[trigger] kill_split(t@, a as int, k as int, e2),
        },
{
    let n = t.len();
    let mut m: usize = k;
    let mut stop = false;
    while m < n && !stop
        invariant
            n == t.len(),
            by@ == "by"@,
            1 <= a < skip_ws(t@, a as int),
            no_newline(t@.subrange(0, a as int)),
            occurs_at(t@, skip_ws(t@, a as int), "killed"@),
            skip_ws(t@, a as int) + 6 < k <= skip_ws(t@, skip_ws(t@, a as int) + 6),
            k <= m <= n,
            !stop ==> no_newline(t@.subrange(k as int, m as int)),
            stop ==> forall|e2: int| !#[trigger] kill_split(t@, a as int, k as int, e2),
            forall|e2: int| #[trigger] kill_split(t@, a as int, k as int, e2) ==> e2 > m,
        decreases n - m + (if stop {
            0int
        } else {
            1int
        }),
    {
        if t[m] == '\n' {
            proof {
                assert forall|e2: int| !#[trigger] kill_split(t@, a as int, k as int, e2) by {
                    if kill_split(t@, a as int, k as int, e2) {
                        assert(t@.subrange(k as int, e2)[m - k] == '\n');
                    }
                }
            }
            stop = true;
        } else {
            let e = m + 1;
            assert(no_newline(t@.subrange(k as int, e as int))) by {
                assert forall|i: int| 0 <= i < e - k implies t@.subrange(k as int, e as int)[i]
                    != '\n' by {
                    if i < m - k {
                        assert(t@.subrange(k as int, m as int)[i] == t@[k + i]);
                    }
                }
            }
            if by_tail_exec(t, e, by) {
                assert(kill_split(t@, a as int, k as int, e as int));
                return Some(e);
            }
            m = m + 1;
        }
    }
    None
}

/// The kill description split as `first_split` picks it.
fn kill_desc_exec(t: &Vec<char>) -> (r: Option<(Vec<char>, Vec<char>, Vec<char>)>)
    ensures
        match r {
            Some((p, v, m)) => kill_desc(t@) == Some((p@, v@, m@)),
            None => kill_desc(t@) is None,
        },
{
    let killed = chars_of("killed");
    let by = chars_of("by");
    proof {
        reveal_strlit("killed");
        reveal_strlit("by");
    }
    let n = t.len();
    let mut a: usize = 1;
    while a < n
        invariant
            n == t.len(),
            1 <= a,
            killed@ == "killed"@,
            by@ == "by"@,
            a <= n + 1,
            no_newline(t@.subrange(0, a - 1)),
            forall|a2: int, k2: int, e2: int| #[trigger] kill_split(t@, a2, k2, e2) ==> a2 >= a,
        decreases n - a,
    {
        proof {
            reveal_strlit("killed");
            reveal_strlit("by");
        }
        if t[a - 1] == '\n' {
            proof {
                assert forall|a2: int, k2: int, e2: int| !#[trigger] kill_split(t@, a2, k2, e2) by {
                    if kill_split(t@, a2, k2, e2) {
                        assert(t@.subrange(0, a2)[a - 1] == '\n');
                    }
                }
                assert(!exists|a2: int, k2: int, e2: int| first_split(t@, a2, k2, e2));
            }
            return None;
        }
        assert(no_newline(t@.subrange(0, a as int))) by {
            assert forall|i: int| 0 <= i < a implies t@.subrange(0, a as int)[i] != '\n' by {
                if i < a - 1 {
                    assert(t@.subrange(0, a - 1)[i] == t@[i]);
                }
            }
        }
        let j = skip_ws_from(t, a);
        proof {
            lemma_skip_ws(t@, a as int);
        }
        if j > a && occurs_at_exec(t, j, &killed) {
            let r = skip_ws_from(t, j + 6);
            proof {
                lemma_skip_ws(t@, j + 6);
            }
            let mut k: usize = r;
            while k > j + 6
                invariant
                    n == t.len(),
                    killed@ == "killed"@,
                    by@ == "by"@,
                    1 <= a < j,
                    j == skip_ws(t@, a as int),
                    r == skip_ws(t@, j + 6),
                    r <= n,
                    j + 6 <= k <= r,
                    occurs_at(t@, j as int, "killed"@),
                    no_newline(t@.subrange(0, a as int)),
                    forall|a2: int, k2: int, e2: int| #[trigger]
                        kill_split(t@, a2, k2, e2) ==> a2 >= a,
                    forall|k2: int, e2: int| #[trigger]
                        kill_split(t@, a as int, k2, e2) ==> k2 <= k,
                decreases k,
            {
                match victim_end(t, a, k, &by) {
                    Some(e) => {
                        assert(first_split(t@, a as int, k as int, e as int));
                        let f = skip_ws_from(t, e);
                        let g = skip_ws_from(t, f + 2);
                        proof {
                            let (a1, k1, e1) = choose|a1: int, k1: int, e1: int|
                                first_split(t@, a1, k1, e1);
                            assert(kill_split(t@, a1, k1, e1));
                            assert(kill_split(t@, a as int, k as int, e as int));
                            assert(a1 == a && k1 == k && e1 == e);
                        }
                        return Some((slice(t, 0, a), slice(t, k, e), slice(t, g, n)));
                    },
                    None => {},
                }
                k = k - 1;
            }
        }
        assert(forall|k2: int, e2: int| !#[trigger] kill_split(t@, a as int, k2, e2));
        a = a + 1;
    }
    proof {
        assert forall|a2: int, k2: int, e2: int| !#[trigger] kill_split(t@, a2, k2, e2) by {
            if kill_split(t@, a2, k2, e2) {
                lemma_skip_ws(t@, a2);
            }
        }
        assert(!exists|a2: int, k2: int, e2: int| first_split(t@, a2, k2, e2));
    }
    None
}

/// Decodes the text after `Kill:`.
pub(crate) fn kill_action(d: &Vec<char>) -> (r: Option<Action>)
    ensures
        action_opt_view(r) == kill_of(d@),
{
    let (ids, desc) = match split_once_exec(d, ':') {
        Some(parts) => parts,
        None => return None,
    };
    let (a, b, c) = match three_words_exec(&ids) {
        Some(words) => words,
        None => return None,
    };
    let kill_id = match parse_u32(&a) {
        Some(n) => n,
        None => return None,
    };
    let player_id = match parse_u32(&b) {
        Some(n) => n,
        None => return None,
    };
    let victim_id = match parse_u32(&c) {
        Some(n) => n,
        None => return None,
    };
    let desc = trim_chars(&desc);
    match kill_desc_exec(&desc) {
        Some((p, v, m)) => Some(
            Action::Kill {
                kill_id,
                player_id,
                victim_id,
                player_name: string_of(p.as_slice()),
                victim_name: string_of(v.as_slice()),
                method: string_of(m.as_slice()),
            },
        ),
        None => None,
    }
}

/// Whether `c` starts with `p`, and if so what follows it, trimmed.
fn after_keyword(c: &Vec<char>, p: &str) -> (r: Option<Vec<char>>)
    ensures
        match r {
            Some(rest) => occurs_at(c@, 0, p@) && rest@ == rest_after(c@, p@),
            None => !occurs_at(c@, 0, p@),
        },
{
    let pc = chars_of(p);
    if occurs_at_exec(c, 0, &pc) {
        let rest = slice(c, pc.len(), c.len());
        Some(trim_chars(&rest))
    } else {
        None
    }
}

fn id_and_text_exec(s: &Vec<char>) -> (r: Option<(u32, String)>)
    ensures
        match r {
            Some((n, t)) => id_and_text(s@) == Some((n, t@)),
            None => id_and_text(s@) is None,
        },
{
    match split_once_exec(s, ' ') {
        Some((a, b)) => match parse_u32(&a) {
            Some(n) => Some((n, string_of(b.as_slice()))),
            None => None,
        },
        None => None,
    }
}

/// Decodes the content of a line, after its clock text.
pub(crate) fn content_action(c: &Vec<char>) -> (r: Option<Action>)
    ensures
        action_opt_view(r) == action_of(c@),
{
    if let Some(rest) = after_keyword(c, "InitGame:") {
        return Some(Action::InitGame { details: string_of(rest.as_slice()) });
    }
    let shut = chars_of("ShutdownGame:");
    if c.len() == shut.len() && occurs_at_exec(c, 0, &shut) {
        assert(c@ =~= c@.subrange(0, shut@.len() as int));
        return Some(Action::ShutdownGame);
    }
    assert(c@ != "ShutdownGame:"@) by {
        if c@ == shut@ {
            assert(c@.subrange(0, c@.len() as int) =~= c@);
        }
    }
    if let Some(rest) = after_keyword(c, "ClientConnect:") {
        return match parse_u32(&rest) {
            Some(n) => Some(Action::ClientConnect { player_id: n }),
            None => None,
        };
    }
    if let Some(rest) = after_keyword(c, "ClientUserinfoChanged:") {
        return match id_and_text_exec(&rest) {
            Some((n, info)) => Some(Action::ClientUserinfoChanged { player_id: n, info }),
            None => None,
        };
    }
    if let Some(rest) = after_keyword(c, "ClientBegin:") {
        return match parse_u32(&rest) {
            Some(n) => Some(Action::ClientBegin { player_id: n }),
            None => None,
        };
    }
    if let Some(rest) = after_keyword(c, "ClientDisconnect:") {
        return match parse_u32(&rest) {
            Some(n) => Some(Action::ClientDisconnect { player_id: n }),
            None => None,
        };
    }
    if let Some(rest) = after_keyword(c, "Item:") {
        return match id_and_text_exec(&rest) {
            Some((n, d)) => Some(Action::Item { item_id: n, description: d }),
            None => None,
        };
    }
    if let Some(rest) = after_keyword(c, "Kill:") {
        return kill_action(&rest);
    }
    match split_once_exec(c, ':') {
        Some((name, rest)) => {
            let details = trim_chars(&rest);
            Some(
                Action::Other {
                    action_name: string_of(name.as_slice()),
                    details: string_of(details.as_slice()),
                },
            )
        },
        None => None,
    }
}

/// Decodes one log line.
pub(crate) fn line_event_exec(line: &str) -> (r: Option<GameEvent>)
    ensures
        event_opt_view(r) == line_event(line@),
{
    let s = chars_of(line);
    let t = trim_chars(&s);
    let n = t.len();
    if n < 2 {
        return None;
    }
    let p: usize = if is_digit_char(t[0]) && t[1] == ':' {
        1
    } else if n >= 3 && is_digit_char(t[0]) && is_digit_char(t[1]) && t[2] == ':' {
        2
    } else {
        0
    };
    if p == 0 || p + 3 >= n {
        return None;
    }
    if !(is_digit_char(t[p + 1]) && is_digit_char(t[p + 2]) && is_ws_char(t[p + 3])) {
        return None;
    }
    let c = skip_ws_from(&t, p + 3);
    if c >= n || !no_newline_in(&t, c, n) {
        return None;
    }
    let ts = slice(&t, 0, p + 3);
    let content = slice(&t, c, n);
    match content_action(&content) {
        Some(action) => Some(GameEvent { timestamp: string_of(ts.as_slice()), action }),
        None => None,
    }
}

} // verus!
