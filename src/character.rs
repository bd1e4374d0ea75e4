use vstd::prelude::*;

use crate::a_star::{a_star, is_route, is_shortest_route, lemma_routes_same_cells, reachable, with_start};
use crate::direction::Direction;
use crate::grid::{Grid, GridView};
use crate::point::{can_add, can_sub, dist_squared, minus, plus, Vector2};

verus! {

/// Which character of the game a character data represents.
#[derive(Debug, PartialEq, Eq, Structural, Clone, Copy)]
pub enum Character {
    Rucman,
    Blinky,
    Pinky,
    Inky,
    Clyde,
}

/// Whether a ghost can be eaten. Both states behave differently on collision.
#[derive(Debug, PartialEq, Eq, Structural, Clone, Copy)]
pub enum Vulnerability {
    Invulnerable,
    Vulnerable,
}

/// Whether a ghost chases the hunted agent or heads for its scatter corner.
#[derive(Debug, PartialEq, Eq, Structural, Clone, Copy)]
pub enum GhostMode {
    Scatter,
    Chase,
}

/// A chase path longer than this is kept while the hunted agent is far away.
pub const STALE_PATH_LEN: usize = 5;

/// Squared distance beyond which the hunted agent counts as far away.
pub const FAR_SQUARED: i128 = 25;

/// Squared distance below which a ghost heads straight for the hunted agent.
pub const NEAR_SQUARED: i128 = 4;

/// The mathematical model of a character.
pub struct CharacterView {
    pub character: Character,
    pub vulnerability: Vulnerability,
    pub ghost_mode: GhostMode,
    pub position: Vector2,
    pub scatter_position: Vector2,
    /// The cached route, nearest step last.
    pub nav_path: Seq<Vector2>,
    pub facing: Direction,
}

/// Stores character data. Most of it is relevant for the ghosts.
#[derive(Debug, PartialEq, Clone)]
pub struct CharacterData {
    character: Character,
    vulnerability: Vulnerability,
    ghost_mode: GhostMode,
    position: Vector2,
    scatter_position: Vector2,
    nav_path: Vec<Vector2>,
    facing_direction: Direction,
}

impl View for CharacterData {
    type V = CharacterView;

    closed spec fn view(&self) -> CharacterView {
        CharacterView {
            character: self.character,
            vulnerability: self.vulnerability,
            ghost_mode: self.ghost_mode,
            position: self.position,
            scatter_position: self.scatter_position,
            nav_path: self.nav_path@,
            facing: self.facing_direction,
        }
    }
}

/// Starting position of each character.
pub open spec fn spawn_of(c: Character) -> Vector2 {
    match c {
        Character::Inky => Vector2(12, 11),
        Character::Blinky => Vector2(13, 9),
        Character::Pinky => Vector2(13, 11),
        Character::Clyde => Vector2(14, 11),
        Character::Rucman => Vector2(13, 20),
    }
}

/// Position each character heads for in scatter mode.
pub open spec fn corner_of(c: Character) -> Vector2 {
    match c {
        Character::Inky => Vector2(25, 25),
        Character::Blinky => Vector2(25, 1),
        Character::Pinky => Vector2(1, 1),
        Character::Clyde => Vector2(1, 25),
        Character::Rucman => Vector2(0, 0),
    }
}

/// The symbol of a character on screen.
pub open spec fn letter_of(c: Character) -> char {
    match c {
        Character::Rucman => 'R',
        Character::Inky => 'I',
        Character::Blinky => 'B',
        Character::Pinky => 'P',
        Character::Clyde => 'C',
    }
}

/// The name of a character.
pub open spec fn name_of(c: Character) -> Seq<char> {
    match c {
        Character::Rucman => "Rucman"@,
        Character::Inky => "Inky"@,
        Character::Blinky => "Blinky"@,
        Character::Pinky => "Pinky"@,
        Character::Clyde => "Clyde"@,
    }
}

/// A position with room for two unit steps in every direction.
pub open spec fn has_room(p: Vector2) -> bool {
    i32::MIN + 2 <= p.0 <= i32::MAX - 2 && i32::MIN + 2 <= p.1 <= i32::MAX - 2
}

/// Where a chasing ghost heads, by personality: straight for the hunted agent,
/// one cell behind it, two (else one) cells ahead of it, or the maze's next
/// open position. Near the hunted agent, the ambushers head straight for it.
pub open spec fn chase_target(
    who: Character,
    me: Vector2,
    hunter: Vector2,
    facing: Direction,
    m: GridView,
) -> Vector2 {
    let near = dist_squared(me, hunter) < NEAR_SQUARED;
    let behind = minus(hunter, facing.offset());
    let ahead = plus(hunter, facing.offset());
    let two_ahead = plus(ahead, facing.offset());
    match who {
        Character::Blinky | Character::Rucman => hunter,
        Character::Inky => if near {
            hunter
        } else if m.traversable(behind) {
            behind
        } else {
            hunter
        },
        Character::Pinky => if near {
            hunter
        } else if m.traversable(two_ahead) {
            two_ahead
        } else if m.traversable(ahead) {
            ahead
        } else {
            hunter
        },
        Character::Clyde => m.open.last(),
    }
}

/// Within distance 2 of the hunted agent, the ambushing personalities give up
/// their offsets and head for the agent's own cell, whatever it faces.
pub proof fn lemma_near_ambusher_targets_hunter(
    me: Vector2,
    hunter: Vector2,
    facing: Direction,
    m: GridView,
)
    requires
        dist_squared(me, hunter) < NEAR_SQUARED,
    ensures
        chase_target(Character::Inky, me, hunter, facing, m) == hunter,
        chase_target(Character::Pinky, me, hunter, facing, m) == hunter,
{
}

/// After pathing from `from` to `goal`: the ghost took the first step of a
/// shortest route and caches the rest, or stayed put with nothing cached when it
/// already stood on the goal.
pub open spec fn stepped_towards(
    m: GridView,
    from: Vector2,
    goal: Vector2,
    now: Vector2,
    cache: Seq<Vector2>,
) -> bool {
    if from == goal {
        now == from && cache.len() == 0
    } else {
        is_shortest_route(m, cache.push(now).push(from), from, goal)
    }
}

/// One scatter tick from `o` to `n` in maze `m`: follow the cached route, or
/// path to the scatter corner when nothing is cached; with the route used up
/// the ghost turns to chasing.
pub open spec fn scattered(o: CharacterView, n: CharacterView, m: GridView) -> bool {
    &&& n.character == o.character
    &&& n.vulnerability == o.vulnerability
    &&& n.scatter_position == o.scatter_position
    &&& n.facing == o.facing
    &&& n.ghost_mode == if n.nav_path.len() == 0 {
        GhostMode::Chase
    } else {
        GhostMode::Scatter
    }
    &&& o.nav_path.len() > 0 ==> n.position == o.nav_path.last() && n.nav_path
        == o.nav_path.drop_last()
    &&& o.nav_path.len() == 0 && reachable(m, o.position, o.scatter_position) ==> stepped_towards(
        m,
        o.position,
        o.scatter_position,
        n.position,
        n.nav_path,
    )
    &&& o.nav_path.len() == 0 && !reachable(m, o.position, o.scatter_position) ==> n.position
        == o.position && n.nav_path.len() == 0
}

/// Whether a chasing ghost keeps draining its cached route this tick: the
/// route is long and the hunted agent is far away.
pub open spec fn keeps_route(o: CharacterView, hunter: Vector2) -> bool {
    o.nav_path.len() > STALE_PATH_LEN && dist_squared(o.position, hunter) > FAR_SQUARED
}

/// One chase tick from `o` to `n`, with the maze going from `m` to `m2`:
/// either the ghost keeps draining its route, or it paths afresh to its
/// personality's target and takes the first step (a wandering ghost draws the
/// maze's next open position as target).
pub open spec fn chased(
    o: CharacterView,
    n: CharacterView,
    m: GridView,
    m2: GridView,
    hunter: Vector2,
    facing: Direction,
) -> bool {
    let t = chase_target(o.character, o.position, hunter, facing, m);
    &&& n.character == o.character
    &&& n.vulnerability == o.vulnerability
    &&& n.ghost_mode == o.ghost_mode
    &&& n.scatter_position == o.scatter_position
    &&& n.facing == o.facing
    &&& keeps_route(o, hunter) ==> m2 == m && n.position == o.nav_path.last() && n.nav_path
        == o.nav_path.drop_last()
    &&& !keeps_route(o, hunter) ==> {
        &&& m2 == if o.character is Clyde {
            m.rotated()
        } else {
            m
        }
        &&& reachable(m, o.position, t) ==> stepped_towards(m, o.position, t, n.position, n.nav_path)
        &&& !reachable(m, o.position, t) ==> n.position == o.position && n.nav_path.len() == 0
    }
}

impl Character {
    /// The letter that shows the character on screen.
    pub fn letter(self) -> (r: char)
        ensures
            r == letter_of(self),
    {
        match self {
            Character::Rucman => 'R',
            Character::Inky => 'I',
            Character::Blinky => 'B',
            Character::Pinky => 'P',
            Character::Clyde => 'C',
        }
    }

    /// The name of the character.
    pub fn name(self) -> (r: &'static str)
        ensures
            r@ == name_of(self),
    {
        match self {
            Character::Rucman => "Rucman",
            Character::Inky => "Inky",
            Character::Blinky => "Blinky",
            Character::Pinky => "Pinky",
            Character::Clyde => "Clyde",
        }
    }
}

/// A character as it starts: at its spawn point, in scatter mode,
/// invulnerable, facing right, with nothing cached.
pub open spec fn fresh(character: Character) -> CharacterView {
    CharacterView {
        character,
        vulnerability: Vulnerability::Invulnerable,
        ghost_mode: GhostMode::Scatter,
        position: spawn_of(character),
        scatter_position: corner_of(character),
        nav_path: Seq::empty(),
        facing: Direction::right_spec(),
    }
}

impl CharacterData {
    /// Creates character data at the character's spawn point, in scatter mode,
    /// invulnerable, facing right, with nothing cached.
    pub fn new(character: Character) -> (r: Self)
        ensures
            r@ == fresh(character),
    {
        let position = match character {
            Character::Inky => Vector2(12, 11),
            Character::Blinky => Vector2(13, 9),
            Character::Pinky => Vector2(13, 11),
            Character::Clyde => Vector2(14, 11),
            Character::Rucman => Vector2(13, 20),
        };
        let scatter_position = match character {
            Character::Inky => Vector2(25, 25),
            Character::Blinky => Vector2(25, 1),
            Character::Pinky => Vector2(1, 1),
            Character::Clyde => Vector2(1, 25),
            Character::Rucman => Vector2(0, 0),
        };
        let r = Self {
            vulnerability: Vulnerability::Invulnerable,
            ghost_mode: GhostMode::Scatter,
            facing_direction: Direction::right(),
            nav_path: Vec::new(),
            character,
            position,
            scatter_position,
        };
        proof {
            assert(r@.nav_path =~= Seq::<Vector2>::empty());
        }
        r
    }

    /// Sets the position of the character.
    pub fn set_position(&mut self, position: Vector2)
        ensures
            final(self)@ == (CharacterView { position, ..old(self)@ }),
    {
        self.position = position;
    }

    /// Gets the position of the character.
    pub fn get_position(&self) -> (r: Vector2)
        ensures
            r == self@.position,
    {
        self.position
    }

    /// Sets the direction the character faces.
    pub fn set_direction(&mut self, direction: Direction)
        ensures
            final(self)@ == (CharacterView { facing: direction, ..old(self)@ }),
    {
        self.facing_direction = direction;
    }

    /// Gets the direction the character is facing.
    pub fn get_direction(&self) -> (r: Direction)
        ensures
            r == self@.facing,
    {
        self.facing_direction
    }

    /// Gets which character this data represents.
    pub fn get_character(&self) -> (r: Character)
        ensures
            r == self@.character,
    {
        self.character
    }

    /// Gets the corner the character heads for in scatter mode.
    pub fn get_scatter_position(&self) -> (r: Vector2)
        ensures
            r == self@.scatter_position,
    {
        self.scatter_position
    }

    /// Gets the cached route, nearest step last.
    pub fn get_nav_path(&self) -> (r: &Vec<Vector2>)
        ensures
            r@ == self@.nav_path,
    {
        &self.nav_path
    }

    /// The position one step away along the direction the character faces.
    pub fn calculate_facing_position(&self) -> (r: Vector2)
        requires
            can_add(self@.position, self@.facing.offset()),
        ensures
            r == plus(self@.position, self@.facing.offset()),
    {
        let offset = match self.facing_direction {
            Direction::Up(dir) | Direction::Down(dir) | Direction::Left(dir) | Direction::Right(
                dir,
            ) => dir,
        };
        self.position + offset
    }

    /// Turns to `direction` only if the cell ahead in that direction can be
    /// stood on.
    pub fn set_direction_if_valid(&mut self, direction: Direction, grid: &Grid)
        requires
            grid.wf(),
            can_add(old(self)@.position, direction.offset()),
        ensures
            grid@.traversable(plus(old(self)@.position, direction.offset())) ==> final(self)@ == (
            CharacterView { facing: direction, ..old(self)@ }),
            !grid@.traversable(plus(old(self)@.position, direction.offset())) ==> final(self)@
                == old(self)@,
    {
        let old = self.get_direction();
        self.set_direction(direction);
        if !grid.is_valid_pos(&self.calculate_facing_position()) {
            self.set_direction(old);
        }
    }

    /// Moves one cell in the facing direction when that cell can be stood on.
    pub fn rucman_move(&mut self, grid: &Grid)
        requires
            grid.wf(),
            can_add(old(self)@.position, old(self)@.facing.offset()),
        ensures
            grid@.traversable(plus(old(self)@.position, old(self)@.facing.offset()))
                ==> final(self)@ == (CharacterView {
                position: plus(old(self)@.position, old(self)@.facing.offset()),
                ..old(self)@
            }),
            !grid@.traversable(plus(old(self)@.position, old(self)@.facing.offset()))
                ==> final(self)@ == old(self)@,
    {
        let next_pos = self.calculate_facing_position();
        if grid.is_valid_pos(&next_pos) {
            self.set_position(next_pos);
        }
    }

    /// Takes one step of the ghost's behaviour for this tick, by its mode:
    /// heads for its scatter corner, or chases the hunted agent at `position`
    /// who faces `rucman_direction`.
    pub fn ghost_move(&mut self, grid: &mut Grid, position: Vector2, rucman_direction: Direction)
        requires
            old(grid).wf(),
            rucman_direction.wf(),
            has_room(position),
            old(self)@.character is Clyde ==> old(grid)@.open.len() > 0,
        ensures
            final(grid).wf(),
            old(self)@.ghost_mode is Chase ==> chased(
                old(self)@,
                final(self)@,
                old(grid)@,
                final(grid)@,
                position,
                rucman_direction,
            ),
            old(self)@.ghost_mode is Scatter ==> scattered(old(self)@, final(self)@, old(grid)@)
                && final(grid)@ == old(grid)@,
    {
        match self.ghost_mode {
            GhostMode::Chase => self.ghost_chase(grid, position, rucman_direction),
            GhostMode::Scatter => self.ghost_scatter(grid),
        }
    }

    /// Chooses where a chasing ghost heads, by personality.
    fn chase_target(&self, grid: &mut Grid, position: Vector2, rucman_direction: Direction) -> (r:
        Vector2)
        requires
            old(grid).wf(),
            rucman_direction.wf(),
            has_room(position),
            self@.character is Clyde ==> old(grid)@.open.len() > 0,
        ensures
            final(grid).wf(),
            r == chase_target(self@.character, self@.position, position, rucman_direction, old(grid)@),
            final(grid)@ == if self@.character is Clyde {
                old(grid)@.rotated()
            } else {
                old(grid)@
            },
    {
        match self.character {
            Character::Blinky | Character::Rucman => position,
            Character::Inky => {
                if Vector2::distance_squared(self.position, position) < NEAR_SQUARED {
                    position
                } else {
                    let ambush = position.back(rucman_direction);
                    if !grid.is_valid_pos(&ambush) {
                        position
                    } else {
                        ambush
                    }
                }
            },
            Character::Pinky => {
                if Vector2::distance_squared(self.position, position) < NEAR_SQUARED {
                    position
                } else {
                    let mut cut_off = position.forward(rucman_direction).forward(rucman_direction);
                    if !grid.is_valid_pos(&cut_off) {
                        cut_off = position.forward(rucman_direction);
                        if !grid.is_valid_pos(&cut_off) {
                            position
                        } else {
                            cut_off
                        }
                    } else {
                        cut_off
                    }
                }
            },
            Character::Clyde => grid.get_random_position(),
        }
    }

    /// Moves a chasing ghost one step along its route to its target.
    fn ghost_chase(&mut self, grid: &mut Grid, position: Vector2, rucman_direction: Direction)
        requires
            old(grid).wf(),
            old(self)@.ghost_mode is Chase,
            rucman_direction.wf(),
            has_room(position),
            old(self)@.character is Clyde ==> old(grid)@.open.len() > 0,
        ensures
            final(grid).wf(),
            chased(old(self)@, final(self)@, old(grid)@, final(grid)@, position, rucman_direction),
    {
        // A long route is kept while the hunted agent is far away, so that the
        // ghosts are not relentless in their chase.
        if self.nav_path.len() > STALE_PATH_LEN && Vector2::distance_squared(self.position, position)
            > FAR_SQUARED {
            let next = self.nav_path.pop().unwrap();
            self.set_position(next);
            return;
        }
        let ghost m = grid@;
        let ghost from = self.position;
        let target = self.chase_target(grid, position, rucman_direction);
        proof {
            lemma_routes_same_cells(m, grid@, from, target);
        }
        match a_star(grid, self.position, target, true) {
            Some(path) => {
                let ghost p = path@;
                self.nav_path = path;
                let next = self.nav_path.pop();
                if next.is_some() {
                    self.set_position(next.unwrap());
                }
                proof {
                    if from != target {
                        assert(p.push(from)[0] == target);
                        assert(p.len() > 0);
                        assert(self@.nav_path.push(self@.position) =~= p);
                        assert(is_route(grid@, p.push(from), from, target));
                        assert(is_shortest_route(m, p.push(from), from, target));
                    } else {
                        assert(self@.nav_path.len() == 0);
                    }
                }
            },
            None => {
                self.nav_path = Vec::new();
                proof {
                    assert(self@.nav_path.len() == 0);
                }
            },
        }
    }

    /// Moves a scattering ghost one step towards its scatter corner, and turns
    /// it to chasing once the route there is used up.
    fn ghost_scatter(&mut self, grid: &Grid)
        requires
            grid.wf(),
            old(self)@.ghost_mode is Scatter,
        ensures
            scattered(old(self)@, final(self)@, grid@),
    {
        let ghost from = self.position;
        let ghost o = self@;
        let ghost had = self.nav_path@.len() > 0;
        if self.nav_path.len() == 0 {
            self.nav_path = match a_star(grid, self.position, self.scatter_position, true) {
                Some(path) => path,
                None => Vec::new(),
            };
        }
        let ghost p = self.nav_path@;
        if self.nav_path.len() > 0 {
            let next = self.nav_path.pop().unwrap();
            self.set_position(next);
        }
        if self.nav_path.len() == 0 {
            self.toggle_ghost_mode();
        }
        proof {
            if p.len() > 0 {
                assert(self@.nav_path =~= p.drop_last());
                assert(self@.position == p.last());
                assert(self@.nav_path.push(self@.position) =~= p);
            } else {
                assert(self@.nav_path =~= Seq::<Vector2>::empty());
                assert(self@.position == from);
            }
            if !had && from != o.scatter_position && reachable(grid@, from, o.scatter_position) {
                assert(p.push(from)[0] == o.scatter_position);
                assert(p.len() > 0);
            }
        }
    }

    /// Flips scatter and chase mode, dropping the cached route.
    pub fn toggle_ghost_mode(&mut self)
        ensures
            final(self)@ == (CharacterView {
                ghost_mode: match old(self)@.ghost_mode {
                    GhostMode::Chase => GhostMode::Scatter,
                    GhostMode::Scatter => GhostMode::Chase,
                },
                nav_path: Seq::empty(),
                ..old(self)@
            }),
    {
        match self.ghost_mode {
            GhostMode::Chase => self.set_scatter_mode(),
            GhostMode::Scatter => self.set_chase_mode(),
        }
    }

    /// Enters scatter mode, dropping the cached route.
    pub fn set_scatter_mode(&mut self)
        ensures
            final(self)@ == (CharacterView {
                ghost_mode: GhostMode::Scatter,
                nav_path: Seq::empty(),
                ..old(self)@
            }),
    {
        self.nav_path.clear();
        self.ghost_mode = GhostMode::Scatter;
    }

    /// Enters chase mode, dropping the cached route.
    pub fn set_chase_mode(&mut self)
        ensures
            final(self)@ == (CharacterView {
                ghost_mode: GhostMode::Chase,
                nav_path: Seq::empty(),
                ..old(self)@
            }),
    {
        self.nav_path.clear();
        self.ghost_mode = GhostMode::Chase;
    }

    /// Makes the ghost vulnerable if it is invulnerable, and the other way round.
    pub fn toggle_vulnerability(&mut self)
        ensures
            old(self)@.vulnerability is Vulnerable ==> final(self)@ == (CharacterView {
                vulnerability: Vulnerability::Invulnerable,
                ghost_mode: GhostMode::Chase,
                nav_path: Seq::empty(),
                ..old(self)@
            }),
            old(self)@.vulnerability is Invulnerable ==> final(self)@ == (CharacterView {
                vulnerability: Vulnerability::Vulnerable,
                ghost_mode: GhostMode::Scatter,
                nav_path: Seq::empty(),
                ..old(self)@
            }),
    {
        match self.vulnerability {
            Vulnerability::Vulnerable => self.set_invulnerable(),
            Vulnerability::Invulnerable => self.set_vulnerable(),
        }
    }

    /// Makes the ghost vulnerable; it scatters and drops its cached route.
    pub fn set_vulnerable(&mut self)
        ensures
            final(self)@ == (CharacterView {
                vulnerability: Vulnerability::Vulnerable,
                ghost_mode: GhostMode::Scatter,
                nav_path: Seq::empty(),
                ..old(self)@
            }),
    {
        self.set_scatter_mode();
        self.vulnerability = Vulnerability::Vulnerable;
    }

    /// Makes the ghost invulnerable; it chases and drops its cached route.
    pub fn set_invulnerable(&mut self)
        ensures
            final(self)@ == (CharacterView {
                vulnerability: Vulnerability::Invulnerable,
                ghost_mode: GhostMode::Chase,
                nav_path: Seq::empty(),
                ..old(self)@
            }),
    {
        self.set_chase_mode();
        self.vulnerability = Vulnerability::Invulnerable;
    }

    /// Gets the current vulnerability of the ghost.
    pub fn get_vulnerability(&self) -> (r: Vulnerability)
        ensures
            r == self@.vulnerability,
    {
        self.vulnerability
    }

    /// Gets the current mode of the ghost.
    pub fn get_mode(&self) -> (r: GhostMode)
        ensures
            r == self@.ghost_mode,
    {
        self.ghost_mode
    }

    /// The symbol that shows the character on screen: a ghost's letter is lower
    /// case while it is vulnerable.
    pub fn symbol(&self) -> (r: char)
        ensures
            self@.character is Rucman || self@.vulnerability is Invulnerable ==> r == letter_of(
                self@.character,
            ),
            !(self@.character is Rucman) && self@.vulnerability is Vulnerable ==> r == lower_of(
                letter_of(self@.character),
            ),
    {
        match self.character {
            Character::Rucman => 'R',
            _ => match self.vulnerability {
                Vulnerability::Invulnerable => self.character.letter(),
                Vulnerability::Vulnerable => match self.character {
                    Character::Inky => 'i',
                    Character::Blinky => 'b',
                    Character::Pinky => 'p',
                    _ => 'c',
                },
            },
        }
    }
}

/// The lower-case form of a ghost's letter.
pub open spec fn lower_of(c: char) -> char {
    if c == 'I' {
        'i'
    } else if c == 'B' {
        'b'
    } else if c == 'P' {
        'p'
    } else {
        'c'
    }
}

} // verus!
