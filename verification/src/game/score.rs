//! Move scoring: score every choice in advance so that play can pick the
//! highest scoring one.
use vstd::prelude::*;

use crate::game::model::Board;
use crate::game::model::BoardView;
use crate::game::model::Choice;
use crate::game::model::ChoiceView;
use crate::game::model::Consequence;
use crate::game::model::ConsequenceKind;
use crate::game::model::Holding;
use crate::game::model::Score;
use crate::game::model::Tree;
use crate::game::player::Player;
use crate::game::rules::owner_of;
use crate::hexagon::coordinate::Cube;

verus! {

/// Two state lists with the same immutable structure: the same keys, the
/// same choice counts, and per choice the same action, consequence tag and
/// consequence board. Scoring changes nothing else.
pub open spec fn same_skeleton(
    a: Seq<(Board, Vec<Choice>)>,
    b: Seq<(Board, Vec<Choice>)>,
) -> bool {
    &&& a.len() == b.len()
    &&& forall|i: int|
        0 <= i < a.len() ==> (#[trigger] b[i]).0@ == a[i].0@ && b[i].1@.len() == a[i].1@.len()
    &&& forall|i: int, c: int|
        #![trigger b[i].1@[c]]
        0 <= i < a.len() && 0 <= c < a[i].1@.len() ==> b[i].1@[c]@.action == a[i].1@[c]@.action
            && b[i].1@[c]@.kind == a[i].1@[c]@.kind && b[i].1@[c]@.board == a[i].1@[c]@.board
}

/// A choice once scored never loses its score during scoring.
pub open spec fn someness_preserved(
    a: Seq<(Board, Vec<Choice>)>,
    b: Seq<(Board, Vec<Choice>)>,
) -> bool {
    forall|i: int, c: int|
        #![trigger b[i].1@[c]]
        0 <= i < a.len() && 0 <= c < a[i].1@.len() && a[i].1@[c]@.score is Some ==> b[i].1@[c]@.score
            is Some
}

/// Every scored terminal choice holds its defined value: a win scores
/// (1, 0), a knock-out scores (0, 0), and a stalemate scores the current
/// player's fraction of owned tiles at distance zero. An unscored tree has
/// this vacuously, and scoring maintains it.
pub open spec fn terminal_values_ok(s: Seq<(Board, Vec<Choice>)>) -> bool {
    forall|i: int, c: int|
        #![trigger s[i].1@[c]]
        0 <= i < s.len() && 0 <= c < s[i].1@.len() && s[i].1@[c]@.score is Some ==> match s[i].1@[c]@.kind {
            ConsequenceKind::Winner => s[i].1@[c]@.score == Some(score_win()),
            ConsequenceKind::GameOver => s[i].1@[c]@.score == Some(score_zero()),
            ConsequenceKind::Stalemate => s[i].1@[c]@.score == Some(
                stalemate_score(s[i].1@[c]@.board),
            ),
            ConsequenceKind::Continue => true,
            ConsequenceKind::TurnOver => true,
        }
}

/// What the scorer asks of a tree, and what rules-generated trees have:
/// rosters are well formed, a winner or stalemate choice stands alone in
/// its list, and a stalemate choice carries its own board, whose current
/// player holds at least one tile.
pub open spec fn scorable(s: Seq<(Board, Vec<Choice>)>) -> bool {
    &&& forall|i: int| 0 <= i < s.len() ==> (#[trigger] s[i]).0@.players.wf()
    &&& forall|i: int, c: int|
        #![trigger s[i].1@[c]]
        0 <= i < s.len() && 0 <= c < s[i].1@.len() ==> s[i].1@[c]@.board.players.wf()
    &&& forall|i: int, c: int|
        #![trigger s[i].1@[c]]
        0 <= i < s.len() && 0 <= c < s[i].1@.len() && (s[i].1@[c]@.kind is Winner || s[i].1@[c]@.kind
            is Stalemate) ==> s[i].1@.len() == 1
    &&& forall|i: int, c: int|
        #![trigger s[i].1@[c]]
        0 <= i < s.len() && 0 <= c < s[i].1@.len() && s[i].1@[c]@.kind is Stalemate ==> s[i].1@[c]@.board
            == s[i].0@ && owned_count(s[i].0@.tiles, s[i].0@.players.current_player()) > 0
}

/// Every choice of the entry at `ix` carries a score.
pub open spec fn all_scored_at(s: Seq<(Board, Vec<Choice>)>, ix: int) -> bool {
    forall|c: int| 0 <= c < s[ix].1@.len() ==> (#[trigger] s[ix].1@[c])@.score is Some
}

/// The model of a whole state list: each entry as its board model and
/// choice models.
pub open spec fn state_views(s: Seq<(Board, Vec<Choice>)>) -> Seq<(BoardView, Seq<ChoiceView>)> {
    s.map_values(
        |e: (Board, Vec<Choice>)| (e.0@, crate::game::model::choices_views(e.1@)),
    )
}

/// The first entry keyed by `b`, or -1 when there is none.
pub open spec fn sv_find(sv: Seq<(BoardView, Seq<ChoiceView>)>, b: BoardView) -> int
    decreases sv.len(),
{
    if sv.len() == 0 {
        -1
    } else if sv.first().0 == b {
        0
    } else {
        let r = sv_find(sv.drop_first(), b);
        if r < 0 {
            -1
        } else {
            r + 1
        }
    }
}

/// `sv_find` finds a key exactly when one exists, lands on it, and under
/// unique keys is the only index holding it.
pub proof fn lemma_sv_find(sv: Seq<(BoardView, Seq<ChoiceView>)>, b: BoardView)
    ensures
        -1 <= sv_find(sv, b) < sv.len(),
        (exists|i: int| 0 <= i < sv.len() && (#[trigger] sv[i]).0 == b) <==> 0 <= sv_find(sv, b),
        0 <= sv_find(sv, b) ==> sv[sv_find(sv, b)].0 == b,
        forall|i: int| 0 <= i < sv_find(sv, b) ==> (#[trigger] sv[i]).0 != b,
    decreases sv.len(),
{
    if sv.len() > 0 {
        lemma_sv_find(sv.drop_first(), b);
        if sv.first().0 == b {
        } else {
            let rest = sv.drop_first();
            assert(forall|i: int| 0 <= i < rest.len() ==> (#[trigger] rest[i]) == sv[i + 1]);
            if exists|i: int| 0 <= i < sv.len() && (#[trigger] sv[i]).0 == b {
                let i = choose|i: int| 0 <= i < sv.len() && (#[trigger] sv[i]).0 == b;
                assert(rest[i - 1] == sv[i]);
            }
            let r = sv_find(rest, b);
            if r >= 0 {
                assert(0 <= r < rest.len());
                assert(sv[r + 1] == rest[r]);
            }
            assert forall|i: int| 0 <= i < sv_find(sv, b) implies (#[trigger] sv[i]).0 != b by {
                assert(r >= 0);
                assert(0 <= r < rest.len());
                if i > 0 {
                    assert(rest[i - 1] == sv[i]);
                }
            }
        }
    }
}

/// The list with only the score slot of choice `c` of entry `ix` changed.
pub open spec fn sv_write(
    sv: Seq<(BoardView, Seq<ChoiceView>)>,
    ix: int,
    c: int,
    score: Option<Score>,
) -> Seq<(BoardView, Seq<ChoiceView>)> {
    sv.update(
        ix,
        (
            sv[ix].0,
            sv[ix].1.update(
                c,
                ChoiceView {
                    action: sv[ix].1[c].action,
                    kind: sv[ix].1[c].kind,
                    board: sv[ix].1[c].board,
                    score,
                },
            ),
        ),
    )
}

/// The per-player fractions that scoring a board as it stands yields.
pub open spec fn spec_score_board(b: BoardView) -> Map<Player, Score> {
    Map::new(
        |p: Player| owned_count(b.tiles, p) > 0,
        |p: Player|
            Score {
                destination_num: owned_count(b.tiles, p) as u64,
                destination_den: b.tiles.len() as u64,
                distance: 0,
            },
    )
}

/// One step further away, holding still at the distance counter's end.
pub open spec fn sat_inc(s: Score) -> Score {
    Score {
        destination_num: s.destination_num,
        destination_den: s.destination_den,
        distance: if s.distance < usize::MAX {
            (s.distance + 1) as usize
        } else {
            s.distance
        },
    }
}

/// Saturating addition on the visit counter.
pub open spec fn sat_add(a: int, b: int) -> int {
    if a + b <= usize::MAX {
        a + b
    } else {
        usize::MAX as int
    }
}

/// Back-propagate a map of downstream scores into the accumulator: each
/// downstream score steps one further away and replaces the standing entry
/// exactly when it compares greater; ties keep the standing entry.
pub open spec fn merge_scores(acc: Map<Player, Score>, sub: Map<Player, Score>) -> Map<
    Player,
    Score,
> {
    Map::new(
        |p: Player| acc.contains_key(p) || sub.contains_key(p),
        |p: Player|
            if sub.contains_key(p) {
                let cand = sat_inc(sub[p]);
                if acc.contains_key(p) {
                    if crate::game::model::score_cmp(cand, acc[p]) is Greater {
                        cand
                    } else {
                        acc[p]
                    }
                } else {
                    cand
                }
            } else {
                acc[p]
            },
    )
}

/// The whole scoring pass, move for move: what the state list becomes,
/// the best score each player can still reach, and how many boards were
/// visited. A board outside the list, or reached with the allowance
/// spent, is scored as it stands.
pub open spec fn spec_score(
    sv: Seq<(BoardView, Seq<ChoiceView>)>,
    b: BoardView,
    fuel: nat,
) -> (Seq<(BoardView, Seq<ChoiceView>)>, Map<Player, Score>, int)
    decreases fuel, 1int, 0int,
{
    if fuel == 0 {
        (sv, spec_score_board(b), 0)
    } else {
        let ix = sv_find(sv, b);
        if ix < 0 {
            (sv, spec_score_board(b), 0)
        } else {
            spec_score_choices(
                sv,
                ix,
                sv[ix].1.len() as int,
                b.players.current_player(),
                0,
                Map::empty(),
                0,
                fuel,
            )
        }
    }
}

/// The choice loop of the scoring pass: skip scored choices, stop at a
/// win or stalemate, recurse and back-propagate through the rest.
pub open spec fn spec_score_choices(
    sv: Seq<(BoardView, Seq<ChoiceView>)>,
    ix: int,
    count: int,
    player: Player,
    c: int,
    scores: Map<Player, Score>,
    sum: int,
    fuel: nat,
) -> (Seq<(BoardView, Seq<ChoiceView>)>, Map<Player, Score>, int)
    decreases fuel, 0int, count - c,
{
    if c < 0 || c >= count || fuel == 0 {
        (sv, scores, sat_add(sum, 1))
    } else {
        let ch = sv[ix].1[c];
        if ch.score is Some {
            spec_score_choices(sv, ix, count, player, c + 1, scores, sum, fuel)
        } else {
            match ch.kind {
                ConsequenceKind::Stalemate => {
                    let sub = spec_score_board(ch.board);
                    (sv_write(sv, ix, c, Some(sub[player])), sub, 1)
                },
                ConsequenceKind::Winner => {
                    (
                        sv_write(sv, ix, c, Some(score_win())),
                        Map::empty().insert(player, score_win()),
                        1,
                    )
                },
                ConsequenceKind::GameOver => {
                    let r = spec_score(sv, ch.board, (fuel - 1) as nat);
                    let sc2 = r.1.insert(player, score_zero());
                    let sv2 = sv_write(r.0, ix, c, Some(score_zero()));
                    spec_score_choices(
                        sv2,
                        ix,
                        count,
                        player,
                        c + 1,
                        merge_scores(scores, sc2),
                        sat_add(sum, r.2),
                        fuel,
                    )
                },
                _ => {
                    let r = spec_score(sv, ch.board, (fuel - 1) as nat);
                    let cs2 = if r.1.contains_key(player) {
                        sat_inc(r.1[player])
                    } else {
                        score_zero()
                    };
                    let sc2 = if r.1.contains_key(player) {
                        r.1
                    } else {
                        r.1.insert(player, score_zero())
                    };
                    let sv2 = sv_write(r.0, ix, c, Some(cs2));
                    spec_score_choices(
                        sv2,
                        ix,
                        count,
                        player,
                        c + 1,
                        merge_scores(scores, sc2),
                        sat_add(sum, r.2),
                        fuel,
                    )
                },
            }
        }
    }
}

/// Skeleton equality and score preservation compose along a chain of
/// scoring steps.
pub proof fn lemma_frames_compose(
    a: Seq<(Board, Vec<Choice>)>,
    b: Seq<(Board, Vec<Choice>)>,
    c: Seq<(Board, Vec<Choice>)>,
)
    requires
        same_skeleton(a, b),
        same_skeleton(b, c),
        someness_preserved(a, b),
        someness_preserved(b, c),
    ensures
        same_skeleton(a, c),
        someness_preserved(a, c),
{
    assert forall|i: int, cc: int|
        #![trigger c[i].1@[cc]]
        0 <= i < a.len() && 0 <= cc < a[i].1@.len() implies c[i].1@[cc]@.action == a[i].1@[cc]@.action
        && c[i].1@[cc]@.kind == a[i].1@[cc]@.kind && c[i].1@[cc]@.board == a[i].1@[cc]@.board && (
    a[i].1@[cc]@.score is Some ==> c[i].1@[cc]@.score is Some) by {
        assert(b[i].1@[cc]@.action == a[i].1@[cc]@.action);
    }
}

/// Two dictionaries with the same immutable structure: the same keys and,
/// per key, choices equal in everything but their scores.
pub open spec fn map_skeleton_eq(
    a: Map<BoardView, Seq<ChoiceView>>,
    b: Map<BoardView, Seq<ChoiceView>>,
) -> bool {
    &&& forall|k: BoardView| #[trigger] a.contains_key(k) ==> b.contains_key(k)
    &&& forall|k: BoardView| #[trigger] b.contains_key(k) ==> a.contains_key(k)
    &&& forall|k: BoardView| #[trigger] a.contains_key(k) ==> a[k].len() == b[k].len()
    &&& forall|k: BoardView, c: int|
        #![trigger a[k][c]]
        a.contains_key(k) && 0 <= c < a[k].len() ==> a[k][c].action == b[k][c].action
            && a[k][c].kind == b[k][c].kind && a[k][c].board == b[k][c].board
}

/// Skeleton equality of state lists with sound keys carries over to the
/// dictionaries they denote.
pub proof fn lemma_skeleton_maps_eq(a: Seq<(Board, Vec<Choice>)>, b: Seq<(Board, Vec<Choice>)>)
    requires
        same_skeleton(a, b),
        forall|i: int, j: int|
            0 <= i < j < a.len() ==> (#[trigger] a[i]).0@ != (#[trigger] a[j]).0@,
    ensures
        map_skeleton_eq(
            crate::game::model::assoc_map(a),
            crate::game::model::assoc_map(b),
        ),
{
    let ma = crate::game::model::assoc_map(a);
    let mb = crate::game::model::assoc_map(b);
    assert forall|k: BoardView| #[trigger] ma.contains_key(k) implies mb.contains_key(k) by {
        crate::game::model::lemma_assoc_map_contains(a, k);
        crate::game::model::lemma_assoc_map_contains(b, k);
        let i = choose|i: int| 0 <= i < a.len() && (#[trigger] a[i]).0@ == k;
        assert(b[i].0@ == k);
    }
    assert forall|k: BoardView| #[trigger] mb.contains_key(k) implies ma.contains_key(k) by {
        crate::game::model::lemma_assoc_map_contains(a, k);
        crate::game::model::lemma_assoc_map_contains(b, k);
        let i = choose|i: int| 0 <= i < b.len() && (#[trigger] b[i]).0@ == k;
        assert(a[i].0@ == k);
    }
    assert forall|k: BoardView| #[trigger] ma.contains_key(k) implies ma[k].len() == mb[k].len()
        && (forall|c: int|
        0 <= c < ma[k].len() ==> (#[trigger] ma[k][c]).action == mb[k][c].action && ma[k][c].kind
            == mb[k][c].kind && ma[k][c].board == mb[k][c].board) by {
        crate::game::model::lemma_assoc_map_contains(a, k);
        let i = choose|i: int| 0 <= i < a.len() && (#[trigger] a[i]).0@ == k;
        assert(forall|j: int| i < j < a.len() ==> (#[trigger] a[j]).0@ != a[i].0@);
        assert forall|j: int| i < j < b.len() implies (#[trigger] b[j]).0@ != b[i].0@ by {
            assert(b[j].0@ == a[j].0@);
        }
        crate::game::model::lemma_assoc_map_value(a, i);
        crate::game::model::lemma_assoc_map_value(b, i);
        assert forall|c: int| 0 <= c < ma[k].len() implies (#[trigger] ma[k][c]).action
            == mb[k][c].action && ma[k][c].kind == mb[k][c].kind && ma[k][c].board
            == mb[k][c].board by {
            assert(ma[k][c] == crate::game::model::choices_views(a[i].1@)[c]);
            assert(mb[k][c] == crate::game::model::choices_views(b[i].1@)[c]);
            assert(crate::game::model::choices_views(a[i].1@)[c] == a[i].1@[c]@);
            assert(crate::game::model::choices_views(b[i].1@)[c] == b[i].1@[c]@);
            assert(b[i].1@[c]@.action == a[i].1@[c]@.action);
        }
    }
}

/// A skeleton-equal copy of a scorable list is scorable, and keeps keys
/// unique.
pub proof fn lemma_skeleton_props(a: Seq<(Board, Vec<Choice>)>, b: Seq<(Board, Vec<Choice>)>)
    requires
        same_skeleton(a, b),
        scorable(a),
    ensures
        scorable(b),
{
    assert forall|i: int, c: int|
        #![trigger b[i].1@[c]]
        0 <= i < b.len() && 0 <= c < b[i].1@.len() implies b[i].1@[c]@.board.players.wf() && ((b[i].1@[c]@.kind
        is Winner || b[i].1@[c]@.kind is Stalemate) ==> b[i].1@.len() == 1) && (b[i].1@[c]@.kind
        is Stalemate ==> b[i].1@[c]@.board == b[i].0@ && owned_count(
        b[i].0@.tiles,
        b[i].0@.players.current_player(),
    ) > 0) by {
        assert(a[i].1@[c]@.kind == b[i].1@[c]@.kind);
    }
}

/// The dictionary that a player-keyed pair list denotes; later entries
/// shadow earlier ones, though the helpers keep keys unique.
pub open spec fn pairs_map<V>(s: Seq<(Player, V)>) -> Map<Player, V>
    decreases s.len(),
{
    if s.len() == 0 {
        Map::empty()
    } else {
        pairs_map(s.drop_last()).insert(s.last().0, s.last().1)
    }
}

/// No two entries share a player.
pub open spec fn pairs_wf<V>(s: Seq<(Player, V)>) -> bool {
    forall|i: int, j: int| 0 <= i < j < s.len() ==> (#[trigger] s[i]).0 != (#[trigger] s[j]).0
}

/// Membership in the dictionary is the existence of an entry for the
/// player.
pub proof fn lemma_pairs_map_contains<V>(s: Seq<(Player, V)>, k: Player)
    ensures
        pairs_map(s).contains_key(k) <==> exists|i: int| 0 <= i < s.len() && (#[trigger] s[i]).0
            == k,
    decreases s.len(),
{
    if s.len() > 0 {
        lemma_pairs_map_contains(s.drop_last(), k);
        if s.last().0 == k {
            assert(s[s.len() - 1].0 == k);
        } else {
            if exists|i: int| 0 <= i < s.len() && (#[trigger] s[i]).0 == k {
                let i = choose|i: int| 0 <= i < s.len() && (#[trigger] s[i]).0 == k;
                assert(s.drop_last()[i] == s[i]);
            }
            if exists|i: int| 0 <= i < s.drop_last().len() && (#[trigger] s.drop_last()[i]).0
                == k {
                let i = choose|i: int|
                    0 <= i < s.drop_last().len() && (#[trigger] s.drop_last()[i]).0 == k;
                assert(s[i] == s.drop_last()[i]);
            }
        }
    }
}

/// With unique keys, an entry gives the dictionary's value at its player.
pub proof fn lemma_pairs_map_value<V>(s: Seq<(Player, V)>, i: int)
    requires
        pairs_wf(s),
        0 <= i < s.len(),
    ensures
        pairs_map(s).contains_key(s[i].0),
        pairs_map(s)[s[i].0] == s[i].1,
    decreases s.len(),
{
    lemma_pairs_map_contains(s, s[i].0);
    if i < s.len() - 1 {
        assert(s.last().0 != s[i].0);
        assert(s.drop_last()[i] == s[i]);
        assert(pairs_wf(s.drop_last())) by {
            assert(forall|a: int, b: int|
                0 <= a < b < s.len() - 1 ==> (#[trigger] s.drop_last()[a]) == s[a] && (
                #[trigger] s.drop_last()[b]) == s[b]);
        }
        lemma_pairs_map_value(s.drop_last(), i);
    }
}

/// Replacing the value at an entry updates the dictionary at its player.
pub proof fn lemma_pairs_map_update<V>(s: Seq<(Player, V)>, i: int, val: V)
    requires
        pairs_wf(s),
        0 <= i < s.len(),
    ensures
        pairs_map(s.update(i, (s[i].0, val))) == pairs_map(s).insert(s[i].0, val),
    decreases s.len(),
{
    let s2 = s.update(i, (s[i].0, val));
    if i == s.len() - 1 {
        assert(s2.drop_last() =~= s.drop_last());
        assert(s2.last() == (s[i].0, val));
    } else {
        assert(pairs_wf(s.drop_last())) by {
            assert(forall|a: int, b: int|
                0 <= a < b < s.len() - 1 ==> (#[trigger] s.drop_last()[a]) == s[a] && (
                #[trigger] s.drop_last()[b]) == s[b]);
        }
        lemma_pairs_map_update(s.drop_last(), i, val);
        assert(s2.drop_last() =~= s.drop_last().update(i, (s[i].0, val)));
        assert(s2.last() == s.last());
        assert(s.last().0 != s[i].0);
        assert(pairs_map(s2) == pairs_map(s.drop_last()).insert(s[i].0, val).insert(
            s.last().0,
            s.last().1,
        ));
        assert(pairs_map(s.drop_last()).insert(s[i].0, val).insert(s.last().0, s.last().1)
            =~= pairs_map(s.drop_last()).insert(s.last().0, s.last().1).insert(s[i].0, val));
    }
}

/// Look a player up in a pair list.
pub fn pairs_get<V: Copy>(v: &Vec<(Player, V)>, p: &Player) -> (r: Option<V>)
    requires
        pairs_wf(v@),
    ensures
        match r {
            Some(val) => pairs_map(v@).contains_key(*p) && pairs_map(v@)[*p] == val,
            None => !pairs_map(v@).contains_key(*p),
        },
{
    let n = v.len();
    let mut i: usize = 0;
    while i < n
        invariant
            pairs_wf(v@),
            0 <= i <= n,
            n == v@.len(),
            forall|j: int| 0 <= j < i ==> (#[trigger] v@[j]).0 != *p,
        decreases n - i,
    {
        if v[i].0 == *p {
            proof {
                lemma_pairs_map_value(v@, i as int);
            }
            return Some(v[i].1);
        }
        i += 1;
    }
    proof {
        lemma_pairs_map_contains(v@, *p);
    }
    None
}

/// Store a value for a player, replacing any entry already there.
pub fn pairs_put<V: Copy>(v: &mut Vec<(Player, V)>, p: Player, val: V)
    requires
        pairs_wf(old(v)@),
    ensures
        pairs_wf(final(v)@),
        pairs_map(final(v)@) == pairs_map(old(v)@).insert(p, val),
{
    let n = v.len();
    let mut i: usize = 0;
    while i < n
        invariant
            pairs_wf(v@),
            v@ == old(v)@,
            0 <= i <= n,
            n == v@.len(),
            forall|j: int| 0 <= j < i ==> (#[trigger] v@[j]).0 != p,
        decreases n - i,
    {
        if v[i].0 == p {
            proof {
                lemma_pairs_map_update(v@, i as int, val);
            }
            v.set(i, (p, val));
            proof {
                assert(v@ =~= old(v)@.update(i as int, (old(v)@[i as int].0, val)));
            }
            return ;
        }
        i += 1;
    }
    proof {
        lemma_pairs_map_contains(v@, p);
    }
    v.push((p, val));
    proof {
        assert(v@.drop_last() =~= old(v)@);
        assert(v@.last() == (p, val));
    }
}

/// How many tiles the player owns.
pub open spec fn owned_count(tiles: Seq<(Cube, u8)>, p: Player) -> int
    decreases tiles.len(),
{
    if tiles.len() == 0 {
        0
    } else {
        owned_count(tiles.drop_last(), p) + if owner_of(tiles.last().1) == p {
            1int
        } else {
            0int
        }
    }
}

/// An owned-tile count stays between zero and the tile count.
pub proof fn lemma_owned_count_bounds(tiles: Seq<(Cube, u8)>, p: Player)
    ensures
        0 <= owned_count(tiles, p) <= tiles.len(),
    decreases tiles.len(),
{
    if tiles.len() > 0 {
        lemma_owned_count_bounds(tiles.drop_last(), p);
    }
}

/// A player who owns some tile has a positive owned-tile count.
pub proof fn lemma_owned_count_pos(tiles: Seq<(Cube, u8)>, p: Player, i: int)
    requires
        0 <= i < tiles.len(),
        owner_of(tiles[i].1) == p,
    ensures
        owned_count(tiles, p) >= 1,
    decreases tiles.len(),
{
    lemma_owned_count_bounds(tiles.drop_last(), p);
    if i < tiles.len() - 1 {
        assert(tiles.drop_last()[i] == tiles[i]);
        lemma_owned_count_pos(tiles.drop_last(), p, i);
    }
}

/// The score a stalemate hands the board's current player: their fraction
/// of owned tiles, at distance zero.
pub open spec fn stalemate_score(b: BoardView) -> Score {
    Score {
        destination_num: owned_count(b.tiles, b.players.current_player()) as u64,
        destination_den: b.tiles.len() as u64,
        distance: 0,
    }
}

/// The best score: a certain win, right here.
pub open spec fn score_win() -> Score {
    Score { destination_num: 1, destination_den: 1, distance: 0 }
}

/// The worst score: a certain loss, right here.
pub open spec fn score_zero() -> Score {
    Score { destination_num: 0, destination_den: 1, distance: 0 }
}

/// Look at a board and compute each player's fraction of owned tiles, at
/// distance zero. Used for boards where the game stops or the tree ends.
pub fn score_board(board: &Board) -> (r: Vec<(Player, Score)>)
    ensures
        pairs_wf(r@),
        pairs_map(r@) == spec_score_board(board@),
        forall|p: Player|
            #[trigger] pairs_map(r@).contains_key(p) <==> owned_count(board@.tiles, p) > 0,
        forall|p: Player|
            #[trigger] pairs_map(r@).contains_key(p) ==> pairs_map(r@)[p] == (Score {
                destination_num: owned_count(board@.tiles, p) as u64,
                destination_den: board@.tiles.len() as u64,
                distance: 0,
            }),
{
    let ghost tiles = board@.tiles;
    let n = board.grid.tiles.len();
    let mut counts: Vec<(Player, u64)> = Vec::new();
    let mut i: usize = 0;
    while i < n
        invariant
            tiles == board@.tiles,
            0 <= i <= n,
            n == tiles.len(),
            pairs_wf(counts@),
            forall|p: Player|
                #[trigger] pairs_map(counts@).contains_key(p) <==> owned_count(
                    tiles.take(i as int),
                    p,
                ) > 0,
            forall|p: Player|
                #[trigger] pairs_map(counts@).contains_key(p) ==> pairs_map(counts@)[p]
                    == owned_count(tiles.take(i as int), p),
        decreases n - i,
    {
        let hold = board.grid.tiles[i].1;
        let p = hold.owner();
        proof {
            assert(tiles.take(i as int + 1).drop_last() =~= tiles.take(i as int));
            assert(tiles.take(i as int + 1).last() == tiles[i as int]);
            lemma_owned_count_bounds(tiles.take(i as int), p);
            assert(owned_count(tiles.take(i as int), p) <= i);
        }
        let prior: u64 = match pairs_get(&counts, &p) {
            Some(c) => c,
            None => 0,
        };
        pairs_put(&mut counts, p, prior + 1);
        proof {
            assert forall|q: Player| #[trigger] pairs_map(counts@).contains_key(q) <==> owned_count(
                tiles.take(i as int + 1),
                q,
            ) > 0 by {
                if q != p {
                    assert(owned_count(tiles.take(i as int + 1), q) == owned_count(
                        tiles.take(i as int),
                        q,
                    ));
                } else {
                    assert(owned_count(tiles.take(i as int + 1), p) == owned_count(
                        tiles.take(i as int),
                        p,
                    ) + 1);
                }
            }
        }
        i += 1;
    }
    proof {
        assert(tiles.take(n as int) =~= tiles);
    }
    let m = counts.len();
    let mut scores: Vec<(Player, Score)> = Vec::new();
    let mut j: usize = 0;
    while j < m
        invariant
            tiles == board@.tiles,
            n == tiles.len(),
            pairs_wf(counts@),
            forall|p: Player|
                #[trigger] pairs_map(counts@).contains_key(p) <==> owned_count(tiles, p) > 0,
            forall|p: Player|
                #[trigger] pairs_map(counts@).contains_key(p) ==> pairs_map(counts@)[p]
                    == owned_count(tiles, p),
            0 <= j <= m,
            m == counts@.len(),
            scores@.len() == j,
            forall|q: int| 0 <= q < j ==> (#[trigger] scores@[q]).0 == counts@[q].0,
            forall|q: int|
                0 <= q < j ==> (#[trigger] scores@[q]).1 == (Score {
                    destination_num: owned_count(tiles, counts@[q].0) as u64,
                    destination_den: tiles.len() as u64,
                    distance: 0,
                }),
            pairs_wf(scores@),
        decreases m - j,
    {
        let (p, held) = counts[j];
        proof {
            lemma_pairs_map_value(counts@, j as int);
            lemma_owned_count_bounds(tiles, p);
            lemma_pairs_map_contains(counts@, p);
        }
        let s = Score::new(held, n as u64, 0);
        scores.push((p, s));
        j += 1;
    }
    proof {
        assert forall|p: Player| #[trigger] pairs_map(scores@).contains_key(p) <==> owned_count(
            tiles,
            p,
        ) > 0 by {
            lemma_pairs_map_contains(scores@, p);
            lemma_pairs_map_contains(counts@, p);
            if exists|q: int| 0 <= q < scores@.len() && (#[trigger] scores@[q]).0 == p {
                let q = choose|q: int| 0 <= q < scores@.len() && (#[trigger] scores@[q]).0 == p;
                assert(counts@[q].0 == p);
            }
            if exists|q: int| 0 <= q < counts@.len() && (#[trigger] counts@[q]).0 == p {
                let q = choose|q: int| 0 <= q < counts@.len() && (#[trigger] counts@[q]).0 == p;
                assert(scores@[q].0 == p);
            }
        }
        assert forall|p: Player| #[trigger] pairs_map(scores@).contains_key(p) implies pairs_map(
            scores@,
        )[p] == (Score {
            destination_num: owned_count(tiles, p) as u64,
            destination_den: tiles.len() as u64,
            distance: 0,
        }) by {
            lemma_pairs_map_contains(scores@, p);
            let q = choose|q: int| 0 <= q < scores@.len() && (#[trigger] scores@[q]).0 == p;
            lemma_pairs_map_value(scores@, q);
        }
        assert(pairs_map(scores@) =~= spec_score_board(board@));
    }
    scores
}

/// Back-propagate each downstream score into the accumulator, one step
/// further away, where it beats the one standing.
fn merge_sub_scores(scores: &mut Vec<(Player, Score)>, sc: &Vec<(Player, Score)>)
    requires
        pairs_wf(old(scores)@),
        pairs_wf(sc@),
    ensures
        pairs_wf(final(scores)@),
        pairs_map(final(scores)@) == merge_scores(pairs_map(old(scores)@), pairs_map(sc@)),
{
    let ghost m0 = pairs_map(old(scores)@);
    let ghost goal = merge_scores(m0, pairs_map(sc@));
    let msize = sc.len();
    let mut k: usize = 0;
    while k < msize
        invariant
            pairs_wf(scores@),
            pairs_wf(sc@),
            0 <= k <= msize,
            msize == sc@.len(),
            m0 == pairs_map(old(scores)@),
            goal == merge_scores(m0, pairs_map(sc@)),
            forall|p: Player|
                #[trigger] pairs_map(scores@).contains_key(p) <==> (m0.contains_key(p) || exists|
                    j: int,
                |
                    0 <= j < k && (#[trigger] sc@[j]).0 == p),
            forall|p: Player|
                #[trigger] pairs_map(scores@).contains_key(p) ==> pairs_map(scores@)[p] == (
                if exists|j: int| 0 <= j < k && (#[trigger] sc@[j]).0 == p {
                    goal[p]
                } else {
                    m0[p]
                }),
        decreases msize - k,
    {
        let (p, sub_score) = sc[k];
        proof {
            lemma_pairs_map_value(sc@, k as int);
            assert(pairs_map(sc@)[p] == sub_score);
            assert(forall|j: int| 0 <= j < k ==> (#[trigger] sc@[j]).0 != p);
        }
        let new_score = sub_score.saturating_increment_distance();
        proof {
            assert(new_score == sat_inc(sub_score));
        }
        let replace = match pairs_get(scores, &p) {
            Some(current_score) => new_score > current_score,
            None => true,
        };
        if replace {
            pairs_put(scores, p, new_score);
        }
        proof {
            assert(pairs_map(sc@).contains_key(p)) by {
                lemma_pairs_map_contains(sc@, p);
            }
            assert(goal.contains_key(p));
            assert forall|q: Player| #[trigger] pairs_map(scores@).contains_key(q) implies
                pairs_map(scores@)[q] == (if exists|j: int|
                0 <= j < k + 1 && (#[trigger] sc@[j]).0 == q {
                goal[q]
            } else {
                m0[q]
            }) by {
                if q == p {
                    assert(sc@[k as int].0 == q);
                } else {
                    assert(forall|j: int|
                        0 <= j < k + 1 && (#[trigger] sc@[j]).0 == q ==> j < k);
                }
            }
            assert forall|q: Player| #[trigger] pairs_map(scores@).contains_key(q) <==> (
            m0.contains_key(q) || exists|j: int| 0 <= j < k + 1 && (#[trigger] sc@[j]).0 == q) by {
                if q == p {
                    assert(sc@[k as int].0 == q);
                }
            }
        }
        k += 1;
    }
    proof {
        assert forall|p: Player| #[trigger] pairs_map(scores@).contains_key(p) <==> goal.contains_key(
            p,
        ) by {
            lemma_pairs_map_contains(sc@, p);
        }
        assert forall|p: Player| pairs_map(scores@).contains_key(p) implies #[trigger] pairs_map(
            scores@,
        )[p] == goal[p] by {
            lemma_pairs_map_contains(sc@, p);
        }
        assert(pairs_map(scores@) =~= goal);
    }
}

impl Tree {
    /// The index of the entry for `board`, if the board has been expanded.
    pub fn find_state_index(&self, board: &Board) -> (r: Option<usize>)
        requires
            self.wf(),
        ensures
            match r {
                Some(ix) => ix < self.states@.len() && self.states@[ix as int].0@ == board@
                    && self.states_map().contains_key(board@),
                None => !self.states_map().contains_key(board@),
            },
    {
        proof {
            crate::game::model::lemma_assoc_map_contains(self.states@, board@);
        }
        let n = self.states.len();
        let mut i: usize = 0;
        while i < n
            invariant
                self.wf(),
                0 <= i <= n,
                n == self.states@.len(),
                forall|j: int| 0 <= j < i ==> (#[trigger] self.states@[j]).0@ != board@,
            decreases n - i,
        {
            if self.states[i].0 == *board {
                proof {
                    crate::game::model::lemma_assoc_map_contains(self.states@, board@);
                }
                return Some(i);
            }
            i += 1;
        }
        None
    }

    /// How many choices the entry at `ix` holds.
    pub(crate) fn choice_count(&self, ix: usize) -> (r: usize)
        requires
            ix < self.states@.len(),
        ensures
            r == self.states@[ix as int].1@.len(),
    {
        self.states[ix].1.len()
    }

    /// A copy of choice `c` of the entry at `ix`.
    pub(crate) fn read_choice(&self, ix: usize, c: usize) -> (r: Choice)
        requires
            ix < self.states@.len(),
            c < self.states@[ix as int].1@.len(),
        ensures
            r@ == self.states@[ix as int].1@[c as int]@,
    {
        self.states[ix].1[c].duplicate()
    }

    /// Write the score slot of choice `c` of the entry at `ix`, leaving
    /// everything else exactly as it stands.
    fn write_choice_score(&mut self, ix: usize, c: usize, s: Option<Score>)
        requires
            ix < old(self).states@.len(),
            c < old(self).states@[ix as int].1@.len(),
        ensures
            final(self).root@ == old(self).root@,
            final(self).states@.len() == old(self).states@.len(),
            forall|q: int|
                0 <= q < old(self).states@.len() && q != ix ==> (#[trigger] final(self).states@[q])
                    == old(self).states@[q],
            final(self).states@[ix as int].0@ == old(self).states@[ix as int].0@,
            final(self).states@[ix as int].1@.len() == old(self).states@[ix as int].1@.len(),
            forall|cc: int|
                0 <= cc < old(self).states@[ix as int].1@.len() && cc != c ==> (#[trigger] final(self).states@[ix as int].1@[cc])@ == old(self).states@[ix as int].1@[cc]@,
            final(self).states@[ix as int].1@[c as int]@.action == old(self).states@[ix as int].1@[
                c as int
            ]@.action,
            final(self).states@[ix as int].1@[c as int]@.kind == old(self).states@[ix as int].1@[
                c as int
            ]@.kind,
            final(self).states@[ix as int].1@[c as int]@.board == old(self).states@[ix as int].1@[
                c as int
            ]@.board,
            final(self).states@[ix as int].1@[c as int]@.score == s,
    {
        let count = self.states[ix].1.len();
        let mut new_choices: Vec<Choice> = Vec::new();
        let mut q: usize = 0;
        while q < count
            invariant
                ix < self.states@.len(),
                self.states@ == old(self).states@,
                count == self.states@[ix as int].1@.len(),
                c < count,
                0 <= q <= count,
                new_choices@.len() == q,
                forall|cc: int|
                    0 <= cc < q && cc != c ==> (#[trigger] new_choices@[cc])@ == self.states@[
                        ix as int
                    ].1@[cc]@,
                c < q ==> new_choices@[c as int]@.action == self.states@[ix as int].1@[
                    c as int
                ]@.action && new_choices@[c as int]@.kind == self.states@[ix as int].1@[
                    c as int
                ]@.kind && new_choices@[c as int]@.board == self.states@[ix as int].1@[
                    c as int
                ]@.board && new_choices@[c as int]@.score == s,
            decreases count - q,
        {
            let ch = self.states[ix].1[q].duplicate();
            if q == c {
                new_choices.push(Choice { action: ch.action, consequence: ch.consequence, score: s });
            } else {
                new_choices.push(ch);
            }
            q += 1;
        }
        let b2 = self.states[ix].0.duplicate();
        self.states.set(ix, (b2, new_choices));
    }
}

/// What one score-slot write does to the state list as a whole: the
/// skeleton stands, scores elsewhere stand, keys stay distinct, and the
/// terminal-value guarantee survives whenever the written value fits the
/// slot's consequence tag.
pub proof fn lemma_write_frame(
    a: Seq<(Board, Vec<Choice>)>,
    b: Seq<(Board, Vec<Choice>)>,
    ix: int,
    c: int,
    s: Option<Score>,
)
    requires
        a.len() == b.len(),
        0 <= ix < a.len(),
        0 <= c < a[ix].1@.len(),
        forall|q: int| 0 <= q < a.len() && q != ix ==> (#[trigger] b[q]) == a[q],
        b[ix].0@ == a[ix].0@,
        b[ix].1@.len() == a[ix].1@.len(),
        forall|cc: int|
            0 <= cc < a[ix].1@.len() && cc != c ==> (#[trigger] b[ix].1@[cc])@ == a[ix].1@[cc]@,
        b[ix].1@[c]@.action == a[ix].1@[c]@.action,
        b[ix].1@[c]@.kind == a[ix].1@[c]@.kind,
        b[ix].1@[c]@.board == a[ix].1@[c]@.board,
        b[ix].1@[c]@.score == s,
    ensures
        same_skeleton(a, b),
        s is Some ==> someness_preserved(a, b),
        (forall|i: int, j: int| 0 <= i < j < a.len() ==> (#[trigger] a[i]).0@ != (#[trigger] a[j]).0@)
            ==> (forall|i: int, j: int|
            0 <= i < j < b.len() ==> (#[trigger] b[i]).0@ != (#[trigger] b[j]).0@),
        (terminal_values_ok(a) && (s is Some ==> match a[ix].1@[c]@.kind {
            ConsequenceKind::Winner => s == Some(score_win()),
            ConsequenceKind::GameOver => s == Some(score_zero()),
            ConsequenceKind::Stalemate => s == Some(stalemate_score(a[ix].1@[c]@.board)),
            ConsequenceKind::Continue => true,
            ConsequenceKind::TurnOver => true,
        })) ==> terminal_values_ok(b),
        scorable(a) ==> scorable(b),
{
    assert forall|i: int|
        0 <= i < a.len() implies (#[trigger] b[i]).0@ == a[i].0@ && b[i].1@.len()
        == a[i].1@.len() by {}
    assert forall|i: int, cc: int|
        #![trigger b[i].1@[cc]]
        0 <= i < a.len() && 0 <= cc < a[i].1@.len() implies b[i].1@[cc]@.action
        == a[i].1@[cc]@.action && b[i].1@[cc]@.kind == a[i].1@[cc]@.kind && b[i].1@[cc]@.board
        == a[i].1@[cc]@.board && (i != ix || cc != c ==> b[i].1@[cc]@ == a[i].1@[cc]@) by {}
    if scorable(a) {
        lemma_skeleton_props(a, b);
    }
}

/// The model of one score-slot write is exactly `sv_write` on the model.
pub proof fn lemma_write_views(
    a: Seq<(Board, Vec<Choice>)>,
    b: Seq<(Board, Vec<Choice>)>,
    ix: int,
    c: int,
    sc: Option<Score>,
)
    requires
        b.len() == a.len(),
        0 <= ix < a.len(),
        0 <= c < a[ix].1@.len(),
        forall|q: int| 0 <= q < a.len() && q != ix ==> (#[trigger] b[q]) == a[q],
        b[ix].0@ == a[ix].0@,
        b[ix].1@.len() == a[ix].1@.len(),
        forall|cc: int|
            0 <= cc < a[ix].1@.len() && cc != c ==> (#[trigger] b[ix].1@[cc])@ == a[ix].1@[cc]@,
        b[ix].1@[c]@.action == a[ix].1@[c]@.action,
        b[ix].1@[c]@.kind == a[ix].1@[c]@.kind,
        b[ix].1@[c]@.board == a[ix].1@[c]@.board,
        b[ix].1@[c]@.score == sc,
    ensures
        state_views(b) == sv_write(state_views(a), ix, c, sc),
{
    let va = state_views(a);
    let vb = state_views(b);
    let target = sv_write(va, ix, c, sc);
    assert forall|q: int| 0 <= q < vb.len() implies vb[q] == target[q] by {
        assert(vb[q] == (b[q].0@, crate::game::model::choices_views(b[q].1@)));
        assert(va[q] == (a[q].0@, crate::game::model::choices_views(a[q].1@)));
        if q != ix {
            assert(b[q] == a[q]);
        } else {
            let inner = va[ix].1.update(
                c,
                ChoiceView {
                    action: va[ix].1[c].action,
                    kind: va[ix].1[c].kind,
                    board: va[ix].1[c].board,
                    score: sc,
                },
            );
            assert forall|cc: int|
                0 <= cc < a[ix].1@.len() implies crate::game::model::choices_views(b[ix].1@)[cc]
                == inner[cc] by {
                assert(crate::game::model::choices_views(b[ix].1@)[cc] == b[ix].1@[cc]@);
                assert(va[ix].1[cc] == a[ix].1@[cc]@);
            }
            assert(crate::game::model::choices_views(b[ix].1@) =~= inner);
        }
    }
    assert(vb =~= target);
}

/// Score every choice reachable from `board` depth-first, skipping choices
/// already scored — the cycle guard that keeps revisits cheap — and hand
/// back how many boards were visited together with the best score each
/// player can still reach. A board outside the tree, or reached once the
/// recursion allowance is spent, is scored as it stands.
///
/// Scoring never touches a key, an action or a consequence; every choice
/// of the looked-up board is scored afterwards; a board whose choices were
/// all scored already is left entirely unchanged.
#[verifier::rlimit(100)]
fn score(board: &Board, tree: &mut Tree, fuel: usize) -> (r: (usize, Vec<(Player, Score)>))
    requires
        old(tree).wf(),
        scorable(old(tree).states@),
        terminal_values_ok(old(tree).states@),
        board@.players.wf(),
    ensures
        final(tree).wf(),
        scorable(final(tree).states@),
        terminal_values_ok(final(tree).states@),
        final(tree).root@ == old(tree).root@,
        same_skeleton(old(tree).states@, final(tree).states@),
        someness_preserved(old(tree).states@, final(tree).states@),
        fuel >= 1 ==> forall|ix: int|
            0 <= ix < old(tree).states@.len() && (#[trigger] old(tree).states@[ix]).0@ == board@
                ==> all_scored_at(final(tree).states@, ix),
        !old(tree).states_map().contains_key(board@) ==> final(tree).states@ == old(tree).states@,
        forall|ix: int|
            0 <= ix < old(tree).states@.len() && (#[trigger] old(tree).states@[ix]).0@ == board@
                && all_scored_at(old(tree).states@, ix) ==> final(tree).states@ == old(
                tree,
            ).states@,
        pairs_wf(r.1@),
        ({
            let r0 = spec_score(state_views(old(tree).states@), board@, fuel as nat);
            &&& state_views(final(tree).states@) == r0.0
            &&& pairs_map(r.1@) == r0.1
            &&& r.0 == r0.2
        }),
    decreases fuel,
{
    let ghost s0 = tree.states@;
    if fuel == 0 {
        let sub_scores = score_board(board);
        proof {
            assert(spec_score(state_views(s0), board@, 0) == (
                state_views(s0),
                spec_score_board(board@),
                0int,
            ));
        }
        return (0, sub_scores);
    }
    let ix = match tree.find_state_index(board) {
        None => {
            // The tree has been partially calculated and this is its end:
            // score the board as it stands.
            proof {
                crate::game::model::lemma_assoc_map_contains(tree.states@, board@);
                lemma_sv_find(state_views(s0), board@);
                assert forall|i: int| 0 <= i < s0.len() implies (#[trigger] state_views(s0)[i]).0
                    != board@ by {
                    assert(state_views(s0)[i].0 == s0[i].0@);
                }
                assert(sv_find(state_views(s0), board@) < 0);
                assert(spec_score(state_views(s0), board@, fuel as nat) == (
                    state_views(s0),
                    spec_score_board(board@),
                    0int,
                ));
            }
            return (0, score_board(board));
        },
        Some(ix) => ix,
    };
    let player = board.players().current();
    proof {
        lemma_sv_find(state_views(s0), board@);
        assert(state_views(s0)[ix as int].0 == s0[ix as int].0@);
        let f = sv_find(state_views(s0), board@);
        assert(0 <= f < s0.len());
        if f != ix as int {
            assert(state_views(s0)[f].0 == s0[f].0@);
            assert(s0[f].0@ == s0[ix as int].0@);
            assert(false);
        }
    }
    let mut scores: Vec<(Player, Score)> = Vec::new();
    let mut sum: usize = 0;
    let count = tree.choice_count(ix);
    proof {
        assert(state_views(s0)[ix as int].1 == crate::game::model::choices_views(
            s0[ix as int].1@,
        ));
        assert(state_views(s0)[ix as int].1.len() == count);
        assert(pairs_map(scores@) =~= Map::<Player, Score>::empty());
        assert(spec_score(state_views(s0), board@, fuel as nat) == spec_score_choices(
            state_views(s0),
            ix as int,
            count as int,
            player,
            0,
            Map::empty(),
            0,
            fuel as nat,
        ));
    }
    let mut c: usize = 0;
    while c < count
        invariant
            tree.wf(),
            scorable(tree.states@),
            terminal_values_ok(tree.states@),
            same_skeleton(s0, tree.states@),
            someness_preserved(s0, tree.states@),
            tree.root@ == old(tree).root@,
            s0 == old(tree).states@,
            old(tree).states_map().contains_key(board@),
            (ix as int) < s0.len(),
            s0[ix as int].0@ == board@,
            count == s0[ix as int].1@.len(),
            0 <= c <= count,
            forall|cc: int|
                0 <= cc < c ==> (#[trigger] tree.states@[ix as int].1@[cc])@.score is Some,
            all_scored_at(s0, ix as int) ==> tree.states@ == s0,
            board@.players.wf(),
            player == board@.players.current_player(),
            pairs_wf(scores@),
            fuel >= 1,
            spec_score(state_views(s0), board@, fuel as nat) == spec_score_choices(
                state_views(tree.states@),
                ix as int,
                count as int,
                player,
                c as int,
                pairs_map(scores@),
                sum as int,
                fuel as nat,
            ),
        decreases count - c,
    {
        let ghost s1 = tree.states@;
        let ghost scores0map = pairs_map(scores@);
        let ghost sum0 = sum as int;
        let ch = tree.read_choice(ix, c);
        proof {
            assert(state_views(s1)[ix as int].1 == crate::game::model::choices_views(
                s1[ix as int].1@,
            ));
            assert(state_views(s1)[ix as int].1[c as int] == s1[ix as int].1@[c as int]@);
            assert(state_views(s1)[ix as int].1[c as int] == ch@);
        }
        if ch.score().is_some() {
            c += 1;
            continue ;
        }
        proof {
            // this choice is unscored, so the board was not fully scored
            assert(s1[ix as int].1@[c as int]@.score is None);
            if all_scored_at(s0, ix as int) {
                assert(s0[ix as int].1@[c as int]@.score is Some);
                assert(false);
            }
        }
        let (v, sc): (usize, Vec<(Player, Score)>) = match &ch.consequence {
            Consequence::Stalemate(b2) => {
                // The game could end here; it is not an ideal end. Score
                // the board as it stands and stop at this single choice.
                let sub_scores = score_board(b2);
                proof {
                    assert(s1[ix as int].1@[c as int]@ == ch@);
                    assert(ch@.kind is Stalemate);
                    assert(s1[ix as int].0@ == board@);
                    assert(ch@.board == board@);
                    assert(b2@ == board@);
                    assert(owned_count(b2@.tiles, player) > 0);
                }
                let sub_score = match pairs_get(&sub_scores, &player) {
                    Some(s) => s,
                    None => {
                        // a stalemate's current player holds a tile, so
                        // the board scoring lists them
                        proof {
                            assert(false);
                        }
                        Score::new(0, 1, 0)
                    },
                };
                let ghost pre = tree.states@;
                tree.write_choice_score(ix, c, Some(sub_score));
                proof {
                    assert(sub_score == stalemate_score(pre[ix as int].1@[c as int]@.board));
                    lemma_write_frame(pre, tree.states@, ix as int, c as int, Some(sub_score));
                    lemma_frames_compose(s0, pre, tree.states@);
                    lemma_write_views(pre, tree.states@, ix as int, c as int, Some(sub_score));
                    assert(pairs_map(sub_scores@) == spec_score_board(ch@.board));
                    assert(sub_score == spec_score_board(ch@.board)[player]);
                    assert(spec_score_choices(
                        state_views(s1),
                        ix as int,
                        count as int,
                        player,
                        c as int,
                        scores0map,
                        sum0,
                        fuel as nat,
                    ) == (state_views(tree.states@), spec_score_board(ch@.board), 1int));
                    assert(s1[ix as int].1@.len() == 1);
                    assert(c == 0);
                    assert forall|ix2: int|
                        0 <= ix2 < s0.len() && (#[trigger] s0[ix2]).0@ == board@ implies
                        all_scored_at(tree.states@, ix2) by {
                        if ix2 != ix as int {
                            assert(tree.states@[ix2].0@ == s0[ix2].0@);
                            assert(tree.states@[ix as int].0@ == s0[ix as int].0@);
                            assert(false);
                        }
                        assert(tree.states@[ix as int].1@[c as int]@.score is Some);
                        assert(tree.states@[ix as int].1@.len() == 1);
                    }
                }
                return (1, sub_scores);
            },
            Consequence::Winner(_) => {
                // The game could end here: give the best score and return.
                let win_score = Score::new(1, 1, 0);
                let ghost pre = tree.states@;
                tree.write_choice_score(ix, c, Some(win_score));
                let mut sub_scores: Vec<(Player, Score)> = Vec::new();
                sub_scores.push((player, win_score));
                proof {
                    assert(win_score == score_win());
                    lemma_write_frame(pre, tree.states@, ix as int, c as int, Some(win_score));
                    lemma_frames_compose(s0, pre, tree.states@);
                    lemma_write_views(pre, tree.states@, ix as int, c as int, Some(win_score));
                    assert(sub_scores@.drop_last() =~= Seq::<(Player, Score)>::empty());
                    assert(pairs_map(Seq::<(Player, Score)>::empty()) == Map::<
                        Player,
                        Score,
                    >::empty());
                    assert(sub_scores@.last() == (player, win_score));
                    assert(pairs_map(sub_scores@) == Map::<Player, Score>::empty().insert(
                        player,
                        score_win(),
                    ));
                    assert(spec_score_choices(
                        state_views(s1),
                        ix as int,
                        count as int,
                        player,
                        c as int,
                        scores0map,
                        sum0,
                        fuel as nat,
                    ) == (
                        state_views(tree.states@),
                        Map::<Player, Score>::empty().insert(player, score_win()),
                        1int,
                    ));
                    assert(s1[ix as int].1@.len() == 1);
                    assert(c == 0);
                    assert forall|ix2: int|
                        0 <= ix2 < s0.len() && (#[trigger] s0[ix2]).0@ == board@ implies
                        all_scored_at(tree.states@, ix2) by {
                        if ix2 != ix as int {
                            assert(tree.states@[ix2].0@ == s0[ix2].0@);
                            assert(tree.states@[ix as int].0@ == s0[ix as int].0@);
                            assert(false);
                        }
                        assert(tree.states@[ix as int].1@[c as int]@.score is Some);
                        assert(tree.states@[ix as int].1@.len() == 1);
                    }
                }
                return (1, sub_scores);
            },
            Consequence::GameOver(b2) => {
                // It is game over for the current player, but the game
                // continues for the rest.
                proof {
                    assert(s1[ix as int].1@[c as int]@ == ch@);
                    assert(ch@.board == b2@);
                }
                let (v, sc) = score(b2, tree, fuel - 1);
                let ghost sub0 = pairs_map(sc@);
                let mut sc = sc;
                let game_over_score = Score::new(0, 1, 0);
                pairs_put(&mut sc, player, game_over_score);
                let ghost pre = tree.states@;
                proof {
                    lemma_frames_compose(s0, s1, pre);
                }
                tree.write_choice_score(ix, c, Some(game_over_score));
                proof {
                    assert(game_over_score == score_zero());
                    assert(pre[ix as int].1@[c as int]@.kind == s0[ix as int].1@[c as int]@.kind);
                    lemma_write_frame(pre, tree.states@, ix as int, c as int, Some(game_over_score));
                    lemma_frames_compose(s0, pre, tree.states@);
                    lemma_write_views(pre, tree.states@, ix as int, c as int, Some(score_zero()));
                    assert(pairs_map(sc@) == sub0.insert(player, score_zero()));
                    assert(spec_score_choices(
                        state_views(s1),
                        ix as int,
                        count as int,
                        player,
                        c as int,
                        scores0map,
                        sum0,
                        fuel as nat,
                    ) == spec_score_choices(
                        state_views(tree.states@),
                        ix as int,
                        count as int,
                        player,
                        c as int + 1,
                        merge_scores(scores0map, pairs_map(sc@)),
                        sat_add(sum0, v as int),
                        fuel as nat,
                    ));
                }
                (v, sc)
            },
            Consequence::Continue(b2) => {
                proof {
                    assert(s1[ix as int].1@[c as int]@ == ch@);
                    assert(ch@.board == b2@);
                }
                let (v, sc) = score(b2, tree, fuel - 1);
                let ghost sub0 = pairs_map(sc@);
                let mut sc = sc;
                let choice_score = match pairs_get(&sc, &player) {
                    Some(s) => s.saturating_increment_distance(),
                    None => {
                        // A knocked-out player may never reach a turn of
                        // their own again; score that as a loss here.
                        let z = Score::new(0, 1, 0);
                        pairs_put(&mut sc, player, z);
                        z
                    },
                };
                let ghost pre = tree.states@;
                proof {
                    lemma_frames_compose(s0, s1, pre);
                }
                tree.write_choice_score(ix, c, Some(choice_score));
                proof {
                    assert(pre[ix as int].1@[c as int]@.kind == s0[ix as int].1@[c as int]@.kind);
                    lemma_write_frame(pre, tree.states@, ix as int, c as int, Some(choice_score));
                    lemma_frames_compose(s0, pre, tree.states@);
                    lemma_write_views(pre, tree.states@, ix as int, c as int, Some(choice_score));
                    if sub0.contains_key(player) {
                        assert(choice_score == sat_inc(sub0[player]));
                        assert(pairs_map(sc@) == sub0);
                    } else {
                        assert(choice_score == score_zero());
                        assert(pairs_map(sc@) == sub0.insert(player, score_zero()));
                    }
                    assert(spec_score_choices(
                        state_views(s1),
                        ix as int,
                        count as int,
                        player,
                        c as int,
                        scores0map,
                        sum0,
                        fuel as nat,
                    ) == spec_score_choices(
                        state_views(tree.states@),
                        ix as int,
                        count as int,
                        player,
                        c as int + 1,
                        merge_scores(scores0map, pairs_map(sc@)),
                        sat_add(sum0, v as int),
                        fuel as nat,
                    ));
                }
                (v, sc)
            },
            Consequence::TurnOver(b2) => {
                proof {
                    assert(s1[ix as int].1@[c as int]@ == ch@);
                    assert(ch@.board == b2@);
                }
                let (v, sc) = score(b2, tree, fuel - 1);
                let ghost sub0 = pairs_map(sc@);
                let mut sc = sc;
                let choice_score = match pairs_get(&sc, &player) {
                    Some(s) => s.saturating_increment_distance(),
                    None => {
                        let z = Score::new(0, 1, 0);
                        pairs_put(&mut sc, player, z);
                        z
                    },
                };
                let ghost pre = tree.states@;
                proof {
                    lemma_frames_compose(s0, s1, pre);
                }
                tree.write_choice_score(ix, c, Some(choice_score));
                proof {
                    assert(pre[ix as int].1@[c as int]@.kind == s0[ix as int].1@[c as int]@.kind);
                    lemma_write_frame(pre, tree.states@, ix as int, c as int, Some(choice_score));
                    lemma_frames_compose(s0, pre, tree.states@);
                    lemma_write_views(pre, tree.states@, ix as int, c as int, Some(choice_score));
                    if sub0.contains_key(player) {
                        assert(choice_score == sat_inc(sub0[player]));
                        assert(pairs_map(sc@) == sub0);
                    } else {
                        assert(choice_score == score_zero());
                        assert(pairs_map(sc@) == sub0.insert(player, score_zero()));
                    }
                    assert(spec_score_choices(
                        state_views(s1),
                        ix as int,
                        count as int,
                        player,
                        c as int,
                        scores0map,
                        sum0,
                        fuel as nat,
                    ) == spec_score_choices(
                        state_views(tree.states@),
                        ix as int,
                        count as int,
                        player,
                        c as int + 1,
                        merge_scores(scores0map, pairs_map(sc@)),
                        sat_add(sum0, v as int),
                        fuel as nat,
                    ));
                }
                (v, sc)
            },
        };
        // This choice was a trunk, not a leaf: back-propagate each sub
        // score, one step further away, where it beats the one standing.
        merge_sub_scores(&mut scores, &sc);
        sum = if sum <= usize::MAX - v {
            sum + v
        } else {
            usize::MAX
        };
        proof {
            assert(pairs_map(scores@) == merge_scores(scores0map, pairs_map(sc@)));
            assert(sum as int == sat_add(sum0, v as int));
        }
        c += 1;
    }
    proof {
        assert forall|ix2: int|
            0 <= ix2 < s0.len() && (#[trigger] s0[ix2]).0@ == board@ implies all_scored_at(
            tree.states@,
            ix2,
        ) by {
            if ix2 != ix as int {
                assert(tree.states@[ix2].0@ == s0[ix2].0@);
                assert(tree.states@[ix as int].0@ == s0[ix as int].0@);
                assert(false);
            }
            assert(tree.states@[ix as int].1@.len() == count);
        }
        assert(spec_score_choices(
            state_views(tree.states@),
            ix as int,
            count as int,
            player,
            c as int,
            pairs_map(scores@),
            sum as int,
            fuel as nat,
        ) == (state_views(tree.states@), pairs_map(scores@), sat_add(sum as int, 1)));
    }
    let touched = if sum < usize::MAX {
        sum + 1
    } else {
        sum
    };
    proof {
        assert(touched as int == sat_add(sum as int, 1));
    }
    (touched, scores)
}

/// The recursion allowance a whole-tree pass starts with: enough that, on
/// a cycle-free tree, it never runs out before the walk does.
pub open spec fn score_fuel(n: nat) -> nat {
    if n < usize::MAX {
        n + 1
    } else {
        usize::MAX as nat
    }
}

/// Score all the moves in the tree; returns the number of boards visited.
/// Afterwards every choice of the root's entry carries a score, and a tree
/// whose root entry was fully scored already comes back identical — so a
/// second call in a row yields the same scores as the first.
pub fn score_tree(tree: &mut Tree) -> (r: usize)
    requires
        old(tree).wf(),
        scorable(old(tree).states@),
        terminal_values_ok(old(tree).states@),
        old(tree).root@.players.wf(),
    ensures
        final(tree).wf(),
        scorable(final(tree).states@),
        terminal_values_ok(final(tree).states@),
        final(tree).root@ == old(tree).root@,
        same_skeleton(old(tree).states@, final(tree).states@),
        someness_preserved(old(tree).states@, final(tree).states@),
        forall|ix: int|
            0 <= ix < old(tree).states@.len() && (#[trigger] old(tree).states@[ix]).0@ == old(
                tree,
            ).root@ ==> all_scored_at(final(tree).states@, ix),
        !old(tree).states_map().contains_key(old(tree).root@) ==> final(tree).states@ == old(
            tree,
        ).states@,
        forall|ix: int|
            0 <= ix < old(tree).states@.len() && (#[trigger] old(tree).states@[ix]).0@ == old(
                tree,
            ).root@ && all_scored_at(old(tree).states@, ix) ==> final(tree).states@ == old(
                tree,
            ).states@,
        state_views(final(tree).states@) == spec_score(
            state_views(old(tree).states@),
            old(tree).root@,
            score_fuel(old(tree).states@.len()),
        ).0,
        r == spec_score(
            state_views(old(tree).states@),
            old(tree).root@,
            score_fuel(old(tree).states@.len()),
        ).2,
{
    let fuel = if tree.states.len() < usize::MAX {
        tree.states.len() + 1
    } else {
        usize::MAX
    };
    let root = tree.root.duplicate();
    let (touched, _scores) = score(&root, tree, fuel);
    touched
}

/// Score a section of the tree starting from the supplied board.
pub fn score_tree_from(from: &Board, tree: &mut Tree) -> (r: usize)
    requires
        old(tree).wf(),
        scorable(old(tree).states@),
        terminal_values_ok(old(tree).states@),
        from@.players.wf(),
    ensures
        final(tree).wf(),
        scorable(final(tree).states@),
        terminal_values_ok(final(tree).states@),
        final(tree).root@ == old(tree).root@,
        same_skeleton(old(tree).states@, final(tree).states@),
        someness_preserved(old(tree).states@, final(tree).states@),
        forall|ix: int|
            0 <= ix < old(tree).states@.len() && (#[trigger] old(tree).states@[ix]).0@ == from@
                ==> all_scored_at(final(tree).states@, ix),
        state_views(final(tree).states@) == spec_score(
            state_views(old(tree).states@),
            from@,
            score_fuel(old(tree).states@.len()),
        ).0,
        r == spec_score(
            state_views(old(tree).states@),
            from@,
            score_fuel(old(tree).states@.len()),
        ).2,
{
    let fuel = if tree.states.len() < usize::MAX {
        tree.states.len() + 1
    } else {
        usize::MAX
    };
    let (touched, _scores) = score(from, tree, fuel);
    touched
}

/// The whole clearing pass, move for move: what the state list becomes.
/// Scored choices are cleared after their subtrees; unscored choices stop
/// the descent.
pub open spec fn spec_clear(
    sv: Seq<(BoardView, Seq<ChoiceView>)>,
    b: BoardView,
    fuel: nat,
) -> Seq<(BoardView, Seq<ChoiceView>)>
    decreases fuel, 1int, 0int,
{
    if fuel == 0 {
        sv
    } else {
        let ix = sv_find(sv, b);
        if ix < 0 {
            sv
        } else {
            spec_clear_choices(sv, ix, sv[ix].1.len() as int, 0, fuel)
        }
    }
}

/// The choice loop of the clearing pass.
pub open spec fn spec_clear_choices(
    sv: Seq<(BoardView, Seq<ChoiceView>)>,
    ix: int,
    count: int,
    c: int,
    fuel: nat,
) -> Seq<(BoardView, Seq<ChoiceView>)>
    decreases fuel, 0int, count - c,
{
    if c < 0 || c >= count || fuel == 0 {
        sv
    } else {
        let ch = sv[ix].1[c];
        if ch.score is None {
            spec_clear_choices(sv, ix, count, c + 1, fuel)
        } else {
            let sv1 = match ch.kind {
                ConsequenceKind::GameOver => spec_clear(sv, ch.board, (fuel - 1) as nat),
                ConsequenceKind::Continue => spec_clear(sv, ch.board, (fuel - 1) as nat),
                ConsequenceKind::TurnOver => spec_clear(sv, ch.board, (fuel - 1) as nat),
                _ => sv,
            };
            spec_clear_choices(sv_write(sv1, ix, c, None), ix, count, c + 1, fuel)
        }
    }
}

/// Scores are only removed, never invented or changed: any score standing
/// afterwards stood before, with the same value.
pub open spec fn scores_only_cleared(
    a: Seq<(Board, Vec<Choice>)>,
    b: Seq<(Board, Vec<Choice>)>,
) -> bool {
    forall|i: int, c: int|
        #![trigger b[i].1@[c]]
        0 <= i < a.len() && 0 <= c < a[i].1@.len() && b[i].1@[c]@.score is Some ==> b[i].1@[c]@.score
            == a[i].1@[c]@.score
}

/// Every choice of the entry at `ix` is unscored.
pub open spec fn all_unscored_at(s: Seq<(Board, Vec<Choice>)>, ix: int) -> bool {
    forall|c: int| 0 <= c < s[ix].1@.len() ==> (#[trigger] s[ix].1@[c])@.score is None
}

/// Clearing steps compose.
pub proof fn lemma_clear_compose(
    a: Seq<(Board, Vec<Choice>)>,
    b: Seq<(Board, Vec<Choice>)>,
    c: Seq<(Board, Vec<Choice>)>,
)
    requires
        same_skeleton(a, b),
        same_skeleton(b, c),
        scores_only_cleared(a, b),
        scores_only_cleared(b, c),
    ensures
        same_skeleton(a, c),
        scores_only_cleared(a, c),
{
    assert forall|i: int, cc: int|
        #![trigger c[i].1@[cc]]
        0 <= i < a.len() && 0 <= cc < a[i].1@.len() implies c[i].1@[cc]@.action == a[i].1@[cc]@.action
        && c[i].1@[cc]@.kind == a[i].1@[cc]@.kind && c[i].1@[cc]@.board == a[i].1@[cc]@.board && (
    c[i].1@[cc]@.score is Some ==> c[i].1@[cc]@.score == a[i].1@[cc]@.score) by {
        assert(b[i].1@[cc]@.action == a[i].1@[cc]@.action);
    }
}

/// Wipe the scores reachable from `board`, stopping the descent at choices
/// already unscored so that repeat calls are cheap.
fn clear(board: &Board, tree: &mut Tree, fuel: usize)
    requires
        old(tree).wf(),
        scorable(old(tree).states@),
    ensures
        final(tree).wf(),
        scorable(final(tree).states@),
        final(tree).root@ == old(tree).root@,
        same_skeleton(old(tree).states@, final(tree).states@),
        scores_only_cleared(old(tree).states@, final(tree).states@),
        fuel >= 1 ==> forall|ix: int|
            0 <= ix < old(tree).states@.len() && (#[trigger] old(tree).states@[ix]).0@ == board@
                ==> all_unscored_at(final(tree).states@, ix),
        state_views(final(tree).states@) == spec_clear(
            state_views(old(tree).states@),
            board@,
            fuel as nat,
        ),
    decreases fuel,
{
    let ghost s0 = tree.states@;
    if fuel == 0 {
        return ;
    }
    let ix = match tree.find_state_index(board) {
        None => {
            proof {
                crate::game::model::lemma_assoc_map_contains(tree.states@, board@);
                lemma_sv_find(state_views(s0), board@);
                assert forall|i: int| 0 <= i < s0.len() implies (#[trigger] state_views(s0)[i]).0
                    != board@ by {
                    assert(state_views(s0)[i].0 == s0[i].0@);
                }
                assert(sv_find(state_views(s0), board@) < 0);
            }
            return ;
        },
        Some(ix) => ix,
    };
    proof {
        lemma_sv_find(state_views(s0), board@);
        assert(state_views(s0)[ix as int].0 == s0[ix as int].0@);
        let f = sv_find(state_views(s0), board@);
        assert(0 <= f < s0.len());
        if f != ix as int {
            assert(state_views(s0)[f].0 == s0[f].0@);
            assert(false);
        }
    }
    let count = tree.choice_count(ix);
    proof {
        assert(state_views(s0)[ix as int].1 == crate::game::model::choices_views(
            s0[ix as int].1@,
        ));
        assert(state_views(s0)[ix as int].1.len() == count);
        assert(spec_clear(state_views(s0), board@, fuel as nat) == spec_clear_choices(
            state_views(s0),
            ix as int,
            count as int,
            0,
            fuel as nat,
        ));
    }
    let mut c: usize = 0;
    while c < count
        invariant
            tree.wf(),
            scorable(tree.states@),
            same_skeleton(s0, tree.states@),
            scores_only_cleared(s0, tree.states@),
            tree.root@ == old(tree).root@,
            s0 == old(tree).states@,
            (ix as int) < s0.len(),
            s0[ix as int].0@ == board@,
            count == s0[ix as int].1@.len(),
            0 <= c <= count,
            forall|cc: int|
                0 <= cc < c ==> (#[trigger] tree.states@[ix as int].1@[cc])@.score is None,
            fuel >= 1,
            spec_clear(state_views(s0), board@, fuel as nat) == spec_clear_choices(
                state_views(tree.states@),
                ix as int,
                count as int,
                c as int,
                fuel as nat,
            ),
        decreases count - c,
    {
        let ghost s1 = tree.states@;
        let ch = tree.read_choice(ix, c);
        proof {
            assert(state_views(s1)[ix as int].1 == crate::game::model::choices_views(
                s1[ix as int].1@,
            ));
            assert(state_views(s1)[ix as int].1[c as int] == ch@);
        }
        if ch.score().is_none() {
            c += 1;
            continue ;
        }
        match &ch.consequence {
            Consequence::GameOver(b2) => {
                proof {
                    assert(ch@.board == b2@);
                }
                clear(b2, tree, fuel - 1);
            },
            Consequence::Continue(b2) => {
                proof {
                    assert(ch@.board == b2@);
                }
                clear(b2, tree, fuel - 1);
            },
            Consequence::TurnOver(b2) => {
                proof {
                    assert(ch@.board == b2@);
                }
                clear(b2, tree, fuel - 1);
            },
            Consequence::Stalemate(_) => {},
            Consequence::Winner(_) => {},
        }
        let ghost pre = tree.states@;
        proof {
            lemma_clear_compose(s0, s1, pre);
            assert(state_views(pre) == (match ch@.kind {
                ConsequenceKind::GameOver => spec_clear(state_views(s1), ch@.board, (fuel - 1) as nat),
                ConsequenceKind::Continue => spec_clear(state_views(s1), ch@.board, (fuel - 1) as nat),
                ConsequenceKind::TurnOver => spec_clear(state_views(s1), ch@.board, (fuel - 1) as nat),
                _ => state_views(s1),
            }));
        }
        tree.write_choice_score(ix, c, None);
        proof {
            lemma_write_frame(pre, tree.states@, ix as int, c as int, None);
            lemma_clear_compose(s0, pre, tree.states@);
            lemma_write_views(pre, tree.states@, ix as int, c as int, None);
            assert(spec_clear_choices(
                state_views(s1),
                ix as int,
                count as int,
                c as int,
                fuel as nat,
            ) == spec_clear_choices(
                state_views(tree.states@),
                ix as int,
                count as int,
                c as int + 1,
                fuel as nat,
            ));
            assert forall|cc: int|
                0 <= cc < c + 1 implies (#[trigger] tree.states@[ix as int].1@[cc])@.score
                is None by {
                if cc < c {
                    assert(pre[ix as int].1@[cc]@.score is None);
                }
            }
        }
        c += 1;
    }
    proof {
        assert forall|ix2: int|
            0 <= ix2 < s0.len() && (#[trigger] s0[ix2]).0@ == board@ implies all_unscored_at(
            tree.states@,
            ix2,
        ) by {
            if ix2 != ix as int {
                assert(tree.states@[ix2].0@ == s0[ix2].0@);
                assert(tree.states@[ix as int].0@ == s0[ix as int].0@);
                assert(false);
            }
            assert(tree.states@[ix as int].1@.len() == count);
        }
    }
}

/// Wipe all scoring from the tree: afterwards the root's entry is wholly
/// unscored, and no score anywhere was invented or changed on the way.
pub fn clear_all_scoring(tree: &mut Tree)
    requires
        old(tree).wf(),
        scorable(old(tree).states@),
    ensures
        final(tree).wf(),
        scorable(final(tree).states@),
        final(tree).root@ == old(tree).root@,
        same_skeleton(old(tree).states@, final(tree).states@),
        scores_only_cleared(old(tree).states@, final(tree).states@),
        forall|ix: int|
            0 <= ix < old(tree).states@.len() && (#[trigger] old(tree).states@[ix]).0@ == old(
                tree,
            ).root@ ==> all_unscored_at(final(tree).states@, ix),
        state_views(final(tree).states@) == spec_clear(
            state_views(old(tree).states@),
            old(tree).root@,
            score_fuel(old(tree).states@.len()),
        ),
{
    let fuel = if tree.states.len() < usize::MAX {
        tree.states.len() + 1
    } else {
        usize::MAX
    };
    let root = tree.root.duplicate();
    clear(&root, tree, fuel);
}

/// Like above, but only starting from the specified board.
pub fn clear_scoring_from(from: &Board, tree: &mut Tree)
    requires
        old(tree).wf(),
        scorable(old(tree).states@),
    ensures
        final(tree).wf(),
        scorable(final(tree).states@),
        final(tree).root@ == old(tree).root@,
        same_skeleton(old(tree).states@, final(tree).states@),
        scores_only_cleared(old(tree).states@, final(tree).states@),
        forall|ix: int|
            0 <= ix < old(tree).states@.len() && (#[trigger] old(tree).states@[ix]).0@ == from@
                ==> all_unscored_at(final(tree).states@, ix),
        state_views(final(tree).states@) == spec_clear(
            state_views(old(tree).states@),
            from@,
            score_fuel(old(tree).states@.len()),
        ),
{
    let fuel = if tree.states.len() < usize::MAX {
        tree.states.len() + 1
    } else {
        usize::MAX
    };
    clear(from, tree, fuel);
}

/// The bridge from expansion to scoring: a state list that holds exactly
/// the rules' choices for each of its well-formed boards is scorable, and
/// carries no score yet, so the terminal-value guarantee holds vacuously.
pub proof fn lemma_states_ok_scorable(s: Seq<(Board, Vec<Choice>)>, move_limit: u8)
    requires
        crate::game::generate::states_ok(s, move_limit),
    ensures
        scorable(s),
        terminal_values_ok(s),
{
    assert forall|i: int, c: int|
        #![trigger s[i].1@[c]]
        0 <= i < s.len() && 0 <= c < s[i].1@.len() implies {
        let ch = s[i].1@[c]@;
        &&& ch.board.players.wf()
        &&& ((ch.kind is Winner || ch.kind is Stalemate) ==> s[i].1@.len() == 1)
        &&& (ch.kind is Stalemate ==> ch.board == s[i].0@ && owned_count(
            s[i].0@.tiles,
            s[i].0@.players.current_player(),
        ) > 0)
        &&& ch.score is None
    } by {
        let b = s[i].0@;
        let cs = crate::game::rules::spec_choices(b, move_limit);
        assert(crate::game::model::choices_views(s[i].1@) == cs);
        assert(crate::game::model::choices_views(s[i].1@)[c] == s[i].1@[c]@);
        let ch = s[i].1@[c]@;
        assert(ch == cs[c]);
        assert(b.players.wf());
        let attacks = crate::game::rules::spec_all_attacks(b.tiles, b.players.current_player());
        if attacks.len() == 0 {
            if crate::game::rules::spec_winner(b) {
            } else if crate::game::rules::spec_loser(b) {
                crate::game::player::lemma_removed_current_wf(b.players);
            } else if crate::game::rules::spec_stalemate(b) {
                assert(!crate::game::rules::spec_loser(b));
                let w = choose|t: int|
                    0 <= t < b.tiles.len() && owner_of((#[trigger] b.tiles[t]).1)
                        == b.players.current_player();
                lemma_owned_count_pos(b.tiles, b.players.current_player(), w);
            } else {
                crate::game::player::lemma_advanced_wf(b.players);
            }
        } else if b.moved + 1 > move_limit {
            crate::game::player::lemma_advanced_wf(b.players);
        } else {
            let f = |a: crate::game::model::Action| crate::game::rules::choice_view(
                a,
                ConsequenceKind::Continue,
                crate::game::rules::attack_board(b, a),
            );
            assert(cs == attacks.map_values(f));
            assert(cs[c] == f(attacks[c]));
        }
    }
}

} // verus!
