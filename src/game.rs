use vstd::prelude::*;

use crate::character::{fresh, Character, CharacterData, CharacterView, Vulnerability};
use crate::grid::Grid;
use crate::managers::{life_lost, scored, NumberManager, NumbersView};
use crate::point::Vector2;

verus! {

/// Points for catching a vulnerable ghost.
pub const GHOST_POINTS: u32 = 200;

/// Whether a ghost on `pos` can be eaten there.
pub open spec fn eaten_at(g: CharacterView, pos: Vector2) -> bool {
    g.position == pos && g.vulnerability is Vulnerable
}

/// Whether a ghost on `pos` catches the hunted agent there.
pub open spec fn catches_at(g: CharacterView, pos: Vector2) -> bool {
    g.position == pos && g.vulnerability is Invulnerable
}

/// Index of the first ghost from `i` on that catches the hunted agent on
/// `pos`, or the number of ghosts when none does.
pub open spec fn catcher(ghosts: Seq<CharacterView>, pos: Vector2, i: int) -> int
    decreases ghosts.len() - i,
{
    if i >= ghosts.len() {
        ghosts.len() as int
    } else if catches_at(ghosts[i], pos) {
        i
    } else {
        catcher(ghosts, pos, i + 1)
    }
}

/// Number of ghosts among the first `k` that can be eaten on `pos`.
pub open spec fn eaten_before(ghosts: Seq<CharacterView>, pos: Vector2, k: int) -> nat
    decreases k,
{
    if k <= 0 {
        0
    } else {
        eaten_before(ghosts, pos, k - 1) + if eaten_at(ghosts[k - 1], pos) {
            1nat
        } else {
            0nat
        }
    }
}

/// The numbers after `points` are scored `count` times.
pub open spec fn scored_times(n: NumbersView, points: u32, count: nat) -> NumbersView
    decreases count,
{
    if count == 0 {
        n
    } else {
        scored(scored_times(n, points, (count - 1) as nat), points)
    }
}

/// The views of a list of characters.
pub open spec fn views(v: Seq<CharacterData>) -> Seq<CharacterView> {
    v.map_values(|c: CharacterData| c@)
}

/// Puts a character back as it starts.
pub fn reset_character(character: &mut CharacterData)
    ensures
        final(character)@ == fresh(old(character)@.character),
{
    *character = CharacterData::new(character.get_character());
}

/// Puts the hunted agent and every ghost back as they start.
pub fn reset_characters(rucman: &mut CharacterData, ghosts: &mut Vec<CharacterData>)
    ensures
        final(rucman)@ == fresh(old(rucman)@.character),
        final(ghosts)@.len() == old(ghosts)@.len(),
        forall|j: int|
            0 <= j < old(ghosts)@.len() ==> (#[trigger] final(ghosts)@[j])@ == fresh(
                old(ghosts)@[j]@.character,
            ),
{
    reset_character(rucman);
    let ghost before = ghosts@;
    let mut i: usize = 0;
    while i < ghosts.len()
        invariant
            ghosts@.len() == before.len(),
            0 <= i <= before.len(),
            forall|j: int| 0 <= j < i ==> (#[trigger] ghosts@[j])@ == fresh(before[j]@.character),
            forall|j: int| i <= j < before.len() ==> #[trigger] ghosts@[j] == before[j],
        decreases before.len() - i,
    {
        reset_character(&mut ghosts[i]);
        i = i + 1;
    }
}

/// Puts a fresh maze in place and every character back as it starts.
pub fn reset_game(grid: &mut Grid, rucman: &mut CharacterData, ghosts: &mut Vec<CharacterData>)
    ensures
        final(grid).wf(),
        final(rucman)@ == fresh(old(rucman)@.character),
        final(ghosts)@.len() == old(ghosts)@.len(),
        forall|j: int|
            0 <= j < old(ghosts)@.len() ==> (#[trigger] final(ghosts)@[j])@ == fresh(
                old(ghosts)@[j]@.character,
            ),
{
    *grid = Grid::new();
    reset_characters(rucman, ghosts);
}

/// Handles the ghosts that share the hunted agent's cell, in order: a
/// vulnerable one is eaten for points and sent back to its start; the first
/// invulnerable one costs a life and is returned, and the ghosts after it are
/// left as they are.
pub fn check_collision(
    rucman: &mut CharacterData,
    ghosts: &mut Vec<CharacterData>,
    score_manager: &mut NumberManager,
) -> (r: Option<Character>)
    ensures
        ({
            let o = views(old(ghosts)@);
            let pos = old(rucman)@.position;
            let stop = catcher(o, pos, 0);
            &&& final(rucman)@ == old(rucman)@
            &&& r == if stop < o.len() {
                Some(o[stop].character)
            } else {
                None
            }
            &&& final(ghosts)@.len() == o.len()
            &&& forall|j: int|
                0 <= j < o.len() ==> (#[trigger] final(ghosts)@[j])@ == if j < stop && eaten_at(
                    o[j],
                    pos,
                ) {
                    fresh(o[j].character)
                } else {
                    o[j]
                }
            &&& final(score_manager)@ == if stop < o.len() {
                life_lost(scored_times(old(score_manager)@, GHOST_POINTS, eaten_before(o, pos, stop)))
            } else {
                scored_times(old(score_manager)@, GHOST_POINTS, eaten_before(o, pos, stop))
            }
        }),
{
    let ghost o = views(ghosts@);
    let ghost before = ghosts@;
    let ghost n0 = score_manager@;
    let pos = rucman.get_position();
    let mut i: usize = 0;
    while i < ghosts.len()
        invariant
            o == views(before),
            before == old(ghosts)@,
            n0 == old(score_manager)@,
            *rucman == *old(rucman),
            pos == rucman@.position,
            ghosts@.len() == before.len(),
            0 <= i <= before.len(),
            catcher(o, pos, 0) == catcher(o, pos, i as int),
            forall|j: int|
                0 <= j < i ==> (#[trigger] ghosts@[j])@ == if eaten_at(o[j], pos) {
                    fresh(o[j].character)
                } else {
                    o[j]
                },
            forall|j: int| i <= j < before.len() ==> #[trigger] ghosts@[j] == before[j],
            score_manager@ == scored_times(n0, GHOST_POINTS, eaten_before(o, pos, i as int)),
        decreases before.len() - i,
    {
        proof {
            assert(o[i as int] == before[i as int]@);
            assert(ghosts@[i as int] == before[i as int]);
        }
        if ghosts[i].get_position() == pos {
            match ghosts[i].get_vulnerability() {
                Vulnerability::Vulnerable => {
                    score_manager.add_score(GHOST_POINTS);
                    reset_character(&mut ghosts[i]);
                },
                Vulnerability::Invulnerable => {
                    score_manager.lose_life();
                    let who = ghosts[i].get_character();
                    proof {
                        assert(o.len() == before.len());
                        assert(who == o[i as int].character);
                        assert(catcher(o, pos, i as int) == i);
                        assert(catcher(o, pos, 0) == i);
                        assert forall|j: int| 0 <= j < o.len() implies (#[trigger] ghosts@[j])@
                            == if j < i && eaten_at(o[j], pos) {
                            fresh(o[j].character)
                        } else {
                            o[j]
                        } by {
                            if j >= i {
                                assert(o[j] == before[j]@);
                            }
                        }
                    }
                    return Some(who);
                },
            }
        }
        proof {
            assert(catcher(o, pos, i as int) == catcher(o, pos, i as int + 1));
            assert(eaten_before(o, pos, i as int + 1) == eaten_before(o, pos, i as int) + if eaten_at(
                o[i as int],
                pos,
            ) {
                1nat
            } else {
                0nat
            });
        }
        i = i + 1;
    }
    proof {
        assert forall|j: int| 0 <= j < o.len() implies (#[trigger] ghosts@[j])@ == if j < catcher(
            o,
            pos,
            0,
        ) && eaten_at(o[j], pos) {
            fresh(o[j].character)
        } else {
            o[j]
        } by {}
    }
    None
}

} // verus!
