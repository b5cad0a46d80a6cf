//! The particle world: particles on a grid of cells, each cell holding at
//! most one particle, stored in a fixed number of slots.

use vstd::prelude::*;
use crate::slots::{
    in_grid, MappedSlots, MappedSlotsOutOfBoundsError, MappedSlotsPopAtError, MappedSlotsPushError,
    SlotIndex,
};
use crate::vector::{reinterpret_u16, I16Vec2};

verus! {

/// What a world needs of a particle: the cell it sits in, which the world
/// reads when spawning it and rewrites when moving it.
pub trait ParticleBehavior: Copy {
    /// The cell the particle sits in.
    spec fn cell_of(&self) -> I16Vec2;

    /// The same particle moved into cell `pos`.
    spec fn with_cell(self, pos: I16Vec2) -> Self;

    fn slot_pos(&self) -> (r: I16Vec2)
        ensures
            r == self.cell_of(),
    ;

    fn set_slot_pos(&mut self, pos: I16Vec2)
        ensures
            *final(self) == old(self).with_cell(pos),
            final(self).cell_of() == pos,
    ;
}

/// A position outside the world.
#[derive(Clone, Copy, PartialEq, Eq, Debug, Structural)]
pub struct WorldOutOfBoundsError;

impl From<MappedSlotsOutOfBoundsError> for WorldOutOfBoundsError {
    fn from(_value: MappedSlotsOutOfBoundsError) -> (r: Self) {
        WorldOutOfBoundsError
    }
}

impl vstd::std_specs::convert::FromSpecImpl<MappedSlotsOutOfBoundsError> for WorldOutOfBoundsError {
    open spec fn obeys_from_spec() -> bool {
        true
    }

    open spec fn from_spec(v: MappedSlotsOutOfBoundsError) -> Self {
        WorldOutOfBoundsError
    }
}

/// Why a particle could not be spawned.
#[derive(Clone, Copy, PartialEq, Eq, Debug, Structural)]
pub enum SpawnParticleError {
    OutOfBounds,
    Conflict,
    Other,
}

/// The spawn error that a grid push error stands for.
pub open spec fn spawn_error_of(value: MappedSlotsPushError) -> SpawnParticleError {
    match value {
        MappedSlotsPushError::PosOutOfBounds => SpawnParticleError::OutOfBounds,
        MappedSlotsPushError::AlreadyOccupied => SpawnParticleError::Conflict,
        MappedSlotsPushError::Full => SpawnParticleError::Other,
    }
}

impl From<MappedSlotsPushError> for SpawnParticleError {
    fn from(value: MappedSlotsPushError) -> (r: Self) {
        match value {
            MappedSlotsPushError::PosOutOfBounds => SpawnParticleError::OutOfBounds,
            MappedSlotsPushError::AlreadyOccupied => SpawnParticleError::Conflict,
            MappedSlotsPushError::Full => SpawnParticleError::Other,
        }
    }
}

impl vstd::std_specs::convert::FromSpecImpl<MappedSlotsPushError> for SpawnParticleError {
    open spec fn obeys_from_spec() -> bool {
        true
    }

    open spec fn from_spec(v: MappedSlotsPushError) -> Self {
        spawn_error_of(v)
    }
}

/// Why no particle could be killed.
#[derive(Clone, Copy, PartialEq, Eq, Debug, Structural)]
pub enum KillParticleError {
    OutOfBounds,
    NothingThere,
}

/// The kill error that a grid pop error stands for.
pub open spec fn kill_error_of(value: MappedSlotsPopAtError) -> KillParticleError {
    match value {
        MappedSlotsPopAtError::PosOutOfBounds => KillParticleError::OutOfBounds,
        MappedSlotsPopAtError::NotOccupied => KillParticleError::NothingThere,
    }
}

impl From<MappedSlotsPopAtError> for KillParticleError {
    fn from(value: MappedSlotsPopAtError) -> (r: Self) {
        match value {
            MappedSlotsPopAtError::PosOutOfBounds => KillParticleError::OutOfBounds,
            MappedSlotsPopAtError::NotOccupied => KillParticleError::NothingThere,
        }
    }
}

impl vstd::std_specs::convert::FromSpecImpl<MappedSlotsPopAtError> for KillParticleError {
    open spec fn obeys_from_spec() -> bool {
        true
    }

    open spec fn from_spec(v: MappedSlotsPopAtError) -> Self {
        kill_error_of(v)
    }
}

/// A particle, if any, moved into cell `pos`.
pub open spec fn moved_to<P: ParticleBehavior>(particle: Option<P>, pos: I16Vec2) -> Option<P> {
    match particle {
        Some(p) => Some(p.with_cell(pos)),
        None => None,
    }
}

/// The column of the cell that a signed position addresses once its
/// components are read as unsigned (a negative one wraps to a large one).
pub open spec fn wrapped_col(pos: I16Vec2) -> int {
    reinterpret_u16(pos.x)
}

/// The row of the cell that a signed position addresses, read as unsigned.
pub open spec fn wrapped_row(pos: I16Vec2) -> int {
    reinterpret_u16(pos.y)
}

/// A world of `WIDTH` by `HEIGHT` cells holding at most `MAX_PARTICLES`
/// particles of type `P`, with a global gravity of type `G`.
pub struct LocalWorld<P: ParticleBehavior, G: Copy, const WIDTH: usize, const HEIGHT: usize, const MAX_PARTICLES: usize> {
    particles: Box<MappedSlots<P, u16, WIDTH, HEIGHT, MAX_PARTICLES>>,
    global_gravity: G,
}

impl<P: ParticleBehavior, G: Copy, const WIDTH: usize, const HEIGHT: usize, const MAX_PARTICLES: usize> LocalWorld<
    P,
    G,
    WIDTH,
    HEIGHT,
    MAX_PARTICLES,
> {
    /// The grid of cells and the slots that hold the particles.
    pub closed spec fn grid_slots(&self) -> MappedSlots<P, u16, WIDTH, HEIGHT, MAX_PARTICLES> {
        *self.particles
    }

    /// The global gravity.
    pub closed spec fn gravity(&self) -> G {
        self.global_gravity
    }

    /// The grid and the slots agree.
    pub open spec fn wf(&self) -> bool {
        self.grid_slots().wf()
    }

    /// Whether `(x, y)` is a cell of the world.
    pub open spec fn in_world(x: int, y: int) -> bool {
        in_grid(x, y, WIDTH as int, HEIGHT as int)
    }

    /// The particle in cell `(x, y)`, if any.
    pub open spec fn particle_at(&self, x: int, y: int) -> Option<P> {
        match self.grid_slots().occupant(x, y) {
            Some(s) => self.grid_slots().items()[s.as_nat() as int],
            None => None,
        }
    }

    /// The particles of the world, by cell.
    pub open spec fn view(&self) -> Map<(int, int), P> {
        Map::new(
            |c: (int, int)| Self::in_world(c.0, c.1) && self.particle_at(c.0, c.1) is Some,
            |c: (int, int)| self.particle_at(c.0, c.1)->Some_0,
        )
    }

    /// The particles outside cells `(x1, y1)` and `(x2, y2)` agree with those of `other`.
    pub open spec fn same_particles_except(&self, other: Self, x1: int, y1: int, x2: int, y2: int) -> bool {
        forall|a: int, b: int|
            Self::in_world(a, b) && (a, b) != (x1, y1) && (a, b) != (x2, y2) ==> #[trigger] self.particle_at(a, b)
                == other.particle_at(a, b)
    }

    /// `self` holds the particles of `before` with those of the cells at
    /// `pos1` and `pos2` (non-negative) exchanged: the particle from `pos1`
    /// moved into `pos2` and the one from `pos2` moved into `pos1` (when the
    /// two are one cell, its particle is moved to `pos2` and then to `pos1`).
    /// Every other cell keeps its particle.
    pub open spec fn particles_swapped(&self, before: Self, pos1: I16Vec2, pos2: I16Vec2) -> bool {
        let (x1, y1, x2, y2) = (pos1.x as int, pos1.y as int, pos2.x as int, pos2.y as int);
        &&& (x1, y1) != (x2, y2) ==> self.particle_at(x2, y2) == moved_to(before.particle_at(x1, y1), pos2)
        &&& (x1, y1) != (x2, y2) ==> self.particle_at(x1, y1) == moved_to(before.particle_at(x2, y2), pos1)
        &&& (x1, y1) == (x2, y2) ==> self.particle_at(x1, y1) == moved_to(
            moved_to(before.particle_at(x1, y1), pos2),
            pos1,
        )
        &&& self.same_particles_except(before, x1, y1, x2, y2)
    }

    /// Swapping the same two cells twice moves each particle out and back:
    /// every cell holds the particle it held before, moved to the other cell
    /// and then back to its own, and every other cell is untouched.
    pub proof fn lemma_swap_twice(a: Self, b: Self, c: Self, pos1: I16Vec2, pos2: I16Vec2)
        requires
            b.particles_swapped(a, pos1, pos2),
            c.particles_swapped(b, pos1, pos2),
        ensures
            ({
                let (x1, y1, x2, y2) = (pos1.x as int, pos1.y as int, pos2.x as int, pos2.y as int);
                &&& (x1, y1) != (x2, y2) ==> c.particle_at(x1, y1) == moved_to(
                    moved_to(a.particle_at(x1, y1), pos2),
                    pos1,
                )
                &&& (x1, y1) != (x2, y2) ==> c.particle_at(x2, y2) == moved_to(
                    moved_to(a.particle_at(x2, y2), pos1),
                    pos2,
                )
                &&& (a.particle_at(x1, y1) is Some <==> c.particle_at(x1, y1) is Some)
                &&& (a.particle_at(x2, y2) is Some <==> c.particle_at(x2, y2) is Some)
                &&& c.same_particles_except(a, x1, y1, x2, y2)
            }),
    {
    }

    /// `kill_particle_at` undoes `spawn_particle`: spawning `particle` into
    /// the empty cell `(x, y)` (world `a` to `b`, as `spawn_particle` ensures
    /// on success) and then killing that cell (world `b` to `c`, as
    /// `kill_particle_at` ensures on success) gives the particle back and
    /// returns the particles and the free list to what they were.
    pub proof fn lemma_kill_undoes_spawn(a: Self, b: Self, c: Self, x: int, y: int, particle: P, popped: P)
        requires
            Self::in_world(x, y),
            !a@.contains_key((x, y)),
            a.grid_slots().free_slots().len() > 0,
            b@ == a@.insert((x, y), particle),
            b.grid_slots().cell(x, y) == a.grid_slots().free_slots().last(),
            b.grid_slots().free_slots() == a.grid_slots().free_slots().drop_last(),
            b@.contains_key((x, y)) && b@[(x, y)] == popped,
            c@ == b@.remove((x, y)),
            c.grid_slots().free_slots() == b.grid_slots().free_slots().push(b.grid_slots().cell(x, y)),
        ensures
            popped == particle,
            c@ == a@,
            c.grid_slots().free_slots() == a.grid_slots().free_slots(),
    {
        assert(c@ =~= a@);
        assert(c.grid_slots().free_slots() =~= a.grid_slots().free_slots());
    }

    /// The particles of a consistent world and its free slots together
    /// count exactly `MAX_PARTICLES`; so no world holds more than
    /// `MAX_PARTICLES` particles.
    pub proof fn lemma_particle_count(&self)
        requires
            self.wf(),
        ensures
            self@.dom().finite(),
            self@.dom().len() + self.grid_slots().free_slots().len() == MAX_PARTICLES,
            self@.dom().len() <= MAX_PARTICLES,
    {
        self.grid_slots().lemma_occupied_cells_plus_free();
        assert(self@.dom() =~= self.grid_slots().occupied_cells()) by {
            assert forall|c: (int, int)| Self::in_world(c.0, c.1) implies (self@.dom().contains(c)
                <==> self.grid_slots().occupied_cells().contains(c)) by {
                self.lemma_particle_at_named(c.0, c.1);
            }
        }
    }

    /// Every particle records, as its own cell, the cell that holds it (with
    /// negative components read as unsigned).
    pub open spec fn positions_agree(&self) -> bool {
        forall|a: int, b: int|
            Self::in_world(a, b) && self.particle_at(a, b) is Some ==> {
                &&& wrapped_col((#[trigger] self.particle_at(a, b))->Some_0.cell_of()) == a
                &&& wrapped_row(self.particle_at(a, b)->Some_0.cell_of()) == b
            }
    }

    /// An empty world, with the gravity that `G::default()` gives.
    pub fn new() -> (r: Self)
        where
            G: Default,
        requires
            MAX_PARTICLES <= u16::MAX,
        ensures
            r.wf(),
            r.grid_slots().is_fresh(),
            forall|a: int, b: int| Self::in_world(a, b) ==> #[trigger] r.particle_at(a, b) is None,
            r@ == Map::<(int, int), P>::empty(),
            r.positions_agree(),
            call_ensures(G::default, (), r.gravity()),
    {
        let r = LocalWorld { particles: Box::new(MappedSlots::new()), global_gravity: G::default() };
        r
    }

    pub fn set_global_gravity(&mut self, value: G)
        ensures
            final(self).gravity() == value,
            final(self).grid_slots() == old(self).grid_slots(),
            final(self)@ == old(self)@,
            old(self).wf() ==> final(self).wf(),
            old(self).positions_agree() ==> final(self).positions_agree(),
    {
        self.global_gravity = value;
        proof {
            Self::lemma_same_views(*old(self), *self);
        }
    }

    /// The gravity, the same everywhere in the world.
    pub fn get_gravity(&self) -> (r: G)
        ensures
            r == self.gravity(),
    {
        self.global_gravity
    }

    /// In a consistent world a cell holds a particle exactly when it names a slot.
    pub proof fn lemma_particle_at_named(&self, x: int, y: int)
        requires
            self.wf(),
            Self::in_world(x, y),
        ensures
            self.particle_at(x, y) is Some <==> !self.grid_slots().cell_empty(x, y),
            !self.grid_slots().cell_empty(x, y) ==> self.grid_slots().cell(x, y).as_nat() < MAX_PARTICLES,
    {
        let g = self.grid_slots().grid();
        assert(self.grid_slots().cell(x, y) == g[y][x]);
        if !self.grid_slots().cell_empty(x, y) {
            assert(self.grid_slots().slots().occupied()[g[y][x].as_nat() as int]);
        }
    }

    /// Puts `particle` into the cell it records as its own (read as unsigned).
    /// Fails, changing nothing, when that cell lies outside the world, when it
    /// already holds a particle, or when every slot is taken.
    pub fn spawn_particle(&mut self, particle: P) -> (r: Result<(), SpawnParticleError>)
        requires
            old(self).wf(),
        ensures
            final(self).wf(),
            final(self).gravity() == old(self).gravity(),
            ({
                let x = wrapped_col(particle.cell_of());
                let y = wrapped_row(particle.cell_of());
                &&& !Self::in_world(x, y) ==> r == Err::<(), _>(SpawnParticleError::OutOfBounds)
                &&& Self::in_world(x, y) && old(self).particle_at(x, y) is Some ==> r == Err::<(), _>(
                    SpawnParticleError::Conflict,
                )
                &&& Self::in_world(x, y) && old(self).particle_at(x, y) is None
                    && old(self).grid_slots().free_slots().len() == 0 ==> r == Err::<(), _>(
                    SpawnParticleError::Other,
                )
                &&& Self::in_world(x, y) && old(self).particle_at(x, y) is None
                    && old(self).grid_slots().free_slots().len() > 0 ==> r is Ok
                &&& r is Ok ==> {
                    &&& final(self).particle_at(x, y) == Some(particle)
                    &&& final(self).same_particles_except(*old(self), x, y, x, y)
                    &&& final(self)@ == old(self)@.insert((x, y), particle)
                    &&& final(self).grid_slots().cell(x, y) == old(self).grid_slots().free_slots().last()
                    &&& final(self).grid_slots().free_slots() == old(self).grid_slots().free_slots().drop_last()
                }
            }),
            r is Err ==> final(self)@ == old(self)@,
            r is Err ==> {
                &&& final(self).grid_slots().items() == old(self).grid_slots().items()
                &&& final(self).grid_slots().free_slots() == old(self).grid_slots().free_slots()
                &&& final(self).grid_slots().grid() == old(self).grid_slots().grid()
            },
            old(self).positions_agree() ==> final(self).positions_agree(),
    {
        let pos = particle.slot_pos().cast_u16();
        proof {
            if Self::in_world(pos.x as int, pos.y as int) {
                old(self).lemma_particle_at_named(pos.x as int, pos.y as int);
            }
        }
        let pushed = self.particles.push_at(pos, particle);
        proof {
            if pushed is Ok {
                let f = old(self).grid_slots().slots().free_indices();
                assert(f[f.len() - 1] == self.grid_slots().cell(pos.x as int, pos.y as int).as_nat());
                self.lemma_spawn_frame(*old(self), pos.x as int, pos.y as int, particle);
            } else {
                Self::lemma_same_views(*old(self), *self);
            }
        }
        match pushed {
            Ok(_) => Ok(()),
            Err(e) => Err(SpawnParticleError::from(e)),
        }
    }

    /// Takes the particle out of the cell that `pos` addresses (read as
    /// unsigned). Fails, changing nothing, when that cell lies outside the
    /// world or holds no particle.
    pub fn kill_particle_at(&mut self, pos: I16Vec2) -> (r: Result<P, KillParticleError>)
        requires
            old(self).wf(),
        ensures
            final(self).wf(),
            final(self).gravity() == old(self).gravity(),
            ({
                let x = wrapped_col(pos);
                let y = wrapped_row(pos);
                &&& !Self::in_world(x, y) ==> r == Err::<P, _>(KillParticleError::OutOfBounds)
                &&& Self::in_world(x, y) && old(self).particle_at(x, y) is None ==> r == Err::<P, _>(
                    KillParticleError::NothingThere,
                )
                &&& Self::in_world(x, y) && old(self).particle_at(x, y) is Some ==> {
                    &&& r is Ok
                    &&& old(self).particle_at(x, y) == Some(r->Ok_0)
                    &&& final(self).particle_at(x, y) is None
                    &&& final(self).same_particles_except(*old(self), x, y, x, y)
                }
                &&& r matches Ok(p) ==> old(self)@.contains_key((x, y)) && old(self)@[(x, y)] == p
                    && final(self)@ == old(self)@.remove((x, y))
                &&& r is Ok ==> final(self).grid_slots().free_slots() == old(self).grid_slots().free_slots().push(
                    old(self).grid_slots().cell(x, y),
                )
            }),
            r is Err ==> final(self)@ == old(self)@,
            r is Err ==> {
                &&& final(self).grid_slots().items() == old(self).grid_slots().items()
                &&& final(self).grid_slots().free_slots() == old(self).grid_slots().free_slots()
                &&& final(self).grid_slots().grid() == old(self).grid_slots().grid()
            },
            old(self).positions_agree() ==> final(self).positions_agree(),
    {
        let upos = pos.cast_u16();
        proof {
            if Self::in_world(upos.x as int, upos.y as int) {
                old(self).lemma_particle_at_named(upos.x as int, upos.y as int);
            }
        }
        let popped = self.particles.pop_at(upos);
        proof {
            if popped is Ok {
                self.lemma_kill_frame(*old(self), upos.x as int, upos.y as int);
            } else {
                Self::lemma_same_views(*old(self), *self);
            }
        }
        match popped {
            Ok(p) => Ok(p),
            Err(e) => Err(KillParticleError::from(e)),
        }
    }

    proof fn lemma_kill_frame(&self, before: Self, x: int, y: int)
        requires
            before.wf(),
            self.wf(),
            Self::in_world(x, y),
            !before.grid_slots().cell_empty(x, y),
            self.grid_slots().items() == before.grid_slots().items().update(
                before.grid_slots().cell(x, y).as_nat() as int,
                None,
            ),
            self.grid_slots().cell_empty(x, y),
            self.grid_slots().same_cells_except(before.grid_slots(), x, y),
        ensures
            self.particle_at(x, y) is None,
            self.same_particles_except(before, x, y, x, y),
            before.positions_agree() ==> self.positions_agree(),
    {
        assert forall|a: int, b: int| Self::in_world(a, b) && (a, b) != (x, y) implies #[trigger] self.particle_at(a, b)
            == before.particle_at(a, b) by {
            let g = before.grid_slots().grid();
            assert(self.grid_slots().grid()[b][a] == g[b][a]);
            if !before.grid_slots().cell_empty(a, b) {
                assert(g[b][a].as_nat() != g[y][x].as_nat());
            }
        }
    }

    /// Exchanges the particles (or absences of particles) of the cells at
    /// `pos1` and `pos2`; each moved particle records its new cell. Fails,
    /// changing nothing, when a position has a negative component or lies
    /// outside the world.
    pub fn swap_particles(&mut self, pos1: I16Vec2, pos2: I16Vec2) -> (r: Result<(), WorldOutOfBoundsError>)
        requires
            old(self).wf(),
        ensures
            final(self).wf(),
            final(self).gravity() == old(self).gravity(),
            r is Ok <==> (pos1.x >= 0 && pos1.y >= 0 && pos2.x >= 0 && pos2.y >= 0 && Self::in_world(
                pos1.x as int,
                pos1.y as int,
            ) && Self::in_world(pos2.x as int, pos2.y as int)),
            r is Err ==> {
                &&& final(self).grid_slots().items() == old(self).grid_slots().items()
                &&& final(self).grid_slots().free_slots() == old(self).grid_slots().free_slots()
                &&& final(self).grid_slots().grid() == old(self).grid_slots().grid()
            },
            r is Ok ==> {
                let (x1, y1, x2, y2) = (pos1.x as int, pos1.y as int, pos2.x as int, pos2.y as int);
                &&& final(self).grid_slots().occupant(x1, y1) == old(self).grid_slots().occupant(x2, y2)
                &&& final(self).grid_slots().occupant(x2, y2) == old(self).grid_slots().occupant(x1, y1)
                &&& final(self).particles_swapped(*old(self), pos1, pos2)
                &&& final(self).particle_at(x1, y1) matches Some(p) ==> p.cell_of() == pos1
                &&& final(self).particle_at(x2, y2) matches Some(p) ==> p.cell_of() == pos2
                &&& final(self).grid_slots().free_slots() == old(self).grid_slots().free_slots()
            },
            old(self).positions_agree() ==> final(self).positions_agree(),
    {
        let upos1 = match pos1.try_cast_u16() {
            Some(u) => u,
            None => {
                proof {
                    Self::lemma_same_views(*old(self), *self);
                }
                return Err(WorldOutOfBoundsError);
            },
        };
        let upos2 = match pos2.try_cast_u16() {
            Some(u) => u,
            None => {
                proof {
                    Self::lemma_same_views(*old(self), *self);
                }
                return Err(WorldOutOfBoundsError);
            },
        };
        let slot1 = match self.particles.get_slot_at(upos1) {
            Ok(s) => s,
            Err(e) => {
                proof {
                    Self::lemma_same_views(*old(self), *self);
                }
                return Err(WorldOutOfBoundsError::from(e));
            },
        };
        let slot2 = match self.particles.get_slot_at(upos2) {
            Ok(s) => s,
            Err(e) => {
                proof {
                    Self::lemma_same_views(*old(self), *self);
                }
                return Err(WorldOutOfBoundsError::from(e));
            },
        };
        let ghost (x1, y1, x2, y2) = (upos1.x as int, upos1.y as int, upos2.x as int, upos2.y as int);
        proof {
            old(self).lemma_particle_at_named(x1, y1);
            old(self).lemma_particle_at_named(x2, y2);
        }
        if let Some(s) = slot1 {
            if let Some(p) = self.particles.get_mut(s) {
                p.set_slot_pos(pos2);
            }
        }
        if let Some(s) = slot2 {
            if let Some(p) = self.particles.get_mut(s) {
                p.set_slot_pos(pos1);
            }
        }
        let ghost moved = *self;
        self.particles.set_slot_at(upos1, slot2).unwrap();
        self.particles.set_slot_at(upos2, slot1).unwrap();
        proof {
            let g0 = old(self).grid_slots();
            let gm = moved.grid_slots();
            let g1 = self.grid_slots();
            assert(gm.grid() == g0.grid());
            assert(gm.cell(x1, y1) == g0.cell(x1, y1));
            assert(gm.cell(x2, y2) == g0.cell(x2, y2));
            assert(g1.cell(x1, y1) == gm.cell(x2, y2));
            assert(g1.cell(x2, y2) == gm.cell(x1, y1));
            assert forall|c: int, d: int|
                in_grid(c, d, WIDTH as int, HEIGHT as int) && (c, d) != (x1, y1) && (c, d) != (x2, y2)
                    implies #[trigger] g1.cell(c, d) == gm.cell(c, d) by {
                assert(g1.grid()[d][c] == gm.grid()[d][c]);
            }
            MappedSlots::lemma_swap_keeps_wf(gm, g1, x1, y1, x2, y2);
            if old(self).positions_agree() {
                assert forall|a: int, b: int|
                    Self::in_world(a, b) && self.particle_at(a, b) is Some implies {
                    &&& wrapped_col((#[trigger] self.particle_at(a, b))->Some_0.cell_of()) == a
                    &&& wrapped_row(self.particle_at(a, b)->Some_0.cell_of()) == b
                } by {
                    if (a, b) != (x1, y1) && (a, b) != (x2, y2) {
                        assert(self.particle_at(a, b) == old(self).particle_at(a, b));
                    }
                }
            }
        }
        Ok(())
    }

    /// A mutable borrow of the particle stored in `slot`, if any; this is how
    /// a tick reaches each particle in turn. Writing through it changes that
    /// particle and nothing else.
    pub fn particle_mut(&mut self, slot: u16) -> (r: Option<&mut P>)
        requires
            old(self).wf(),
            slot < MAX_PARTICLES,
        ensures
            final(self).wf(),
            final(self).gravity() == old(self).gravity(),
            final(self).grid_slots().grid() == old(self).grid_slots().grid(),
            final(self).grid_slots().free_slots() == old(self).grid_slots().free_slots(),
            match old(self).grid_slots().items()[slot as int] {
                Some(p) => r is Some && *r.unwrap() == p && final(self).grid_slots().items()
                    == old(self).grid_slots().items().update(slot as int, Some(*final(r.unwrap()))),
                None => r is None && final(self).grid_slots().items() == old(self).grid_slots().items(),
            },
    {
        self.particles.get_mut(slot)
    }

    /// Worlds with the same cells and slot contents hold the same particles.
    pub proof fn lemma_same_views(a: Self, b: Self)
        requires
            b.grid_slots().items() == a.grid_slots().items(),
            b.grid_slots().grid() == a.grid_slots().grid(),
        ensures
            forall|x: int, y: int| #![trigger a.particle_at(x, y)] #![trigger b.particle_at(x, y)]
                a.particle_at(x, y) == b.particle_at(x, y),
            a.positions_agree() ==> b.positions_agree(),
    {
        assert forall|x: int, y: int| #![trigger a.particle_at(x, y)] #![trigger b.particle_at(x, y)]
            a.particle_at(x, y) == b.particle_at(x, y) by {
            assert(a.grid_slots().cell(x, y) == b.grid_slots().cell(x, y));
        }
    }

    proof fn lemma_spawn_frame(&self, before: Self, x: int, y: int, particle: P)
        requires
            before.wf(),
            self.wf(),
            Self::in_world(x, y),
            before.grid_slots().cell_empty(x, y),
            self.grid_slots().items() == before.grid_slots().items().update(
                self.grid_slots().cell(x, y).as_nat() as int,
                Some(particle),
            ),
            before.grid_slots().items()[self.grid_slots().cell(x, y).as_nat() as int] is None,
            self.grid_slots().cell(x, y).as_nat() < MAX_PARTICLES,
            self.grid_slots().same_cells_except(before.grid_slots(), x, y),
            before.positions_agree() ==> wrapped_col(particle.cell_of()) == x && wrapped_row(
                particle.cell_of(),
            ) == y,
        ensures
            self.particle_at(x, y) == Some(particle),
            self.same_particles_except(before, x, y, x, y),
            before.positions_agree() ==> self.positions_agree(),
    {
        let k = self.grid_slots().cell(x, y).as_nat() as int;
        assert forall|a: int, b: int| Self::in_world(a, b) && (a, b) != (x, y) implies #[trigger] self.particle_at(a, b)
            == before.particle_at(a, b) by {
            assert(self.grid_slots().grid()[b][a] == before.grid_slots().grid()[b][a]);
            before.lemma_particle_at_named(a, b);
            if !before.grid_slots().cell_empty(a, b) {
                assert(before.grid_slots().slots().occupied()[before.grid_slots().cell(a, b).as_nat() as int]);
            }
        }
        assert(self.grid_slots().cell_empty(x, y) == false);
    }

    /// The particle in the cell that `pos` addresses once read as unsigned;
    /// an error when that cell lies outside the world.
    pub fn get_particle_at(&self, pos: I16Vec2) -> (r: Result<Option<P>, WorldOutOfBoundsError>)
        requires
            self.wf(),
        ensures
            r is Err <==> !Self::in_world(wrapped_col(pos), wrapped_row(pos)),
            r matches Ok(o) ==> o == self.particle_at(wrapped_col(pos), wrapped_row(pos)),
            r matches Ok(o) ==> (o is Some <==> self@.contains_key((wrapped_col(pos), wrapped_row(pos)))),
            r matches Ok(Some(p)) ==> self@[(wrapped_col(pos), wrapped_row(pos))] == p,
            self.positions_agree() ==> (r matches Ok(Some(p)) ==> p.cell_of() == pos),
    {
        match self.particles.get_at(pos.cast_u16()) {
            Err(e) => Err(WorldOutOfBoundsError::from(e)),
            Ok(None) => Ok(None),
            Ok(Some(si)) => Ok(Some(*si.item)),
        }
    }
}

/// Whether a particle may move into a cell, given what a lookup of that
/// cell returned: only into an empty cell inside the world.
pub fn could_move_to<P>(lookup: &Result<Option<P>, WorldOutOfBoundsError>) -> (r: bool)
    ensures
        r == (*lookup matches Ok(None)),
{
    match lookup {
        Ok(Some(_)) => false,
        Err(_) => false,
        _ => true,
    }
}

/// The number of slots that a tick visits.
pub const TICK_SLOTS: u16 = 10000;

/// The multiplier that scatters the tick order over the slots.
pub const TICK_STRIDE: u32 = 2573;

/// The slot that a tick visits at step `i`.
pub open spec fn tick_slot_spec(i: int) -> int {
    (i * 2573) % 10000
}

/// The slot that a tick visits at step `i`: `i * 2573 mod 10000`.
pub fn tick_slot(i: u16) -> (r: u16)
    ensures
        r == tick_slot_spec(i as int),
{
    ((i as u32 * TICK_STRIDE) % (TICK_SLOTS as u32)) as u16
}

/// Multiplying by 2573 and then by 7637 modulo 10000 gives back the start:
/// the two are inverse, as 2573 * 7637 = 1965 * 10000 + 1.
proof fn lemma_stride_inverse(i: int, a: int, b: int)
    requires
        0 <= i < 10000,
        a * b == 1965 * 10000 + 1,
    ensures
        (((i * a) % 10000) * b) % 10000 == i,
{
    let p = i * a;
    let q = p / 10000;
    let r = p % 10000;
    vstd::arithmetic::div_mod::lemma_fundamental_div_mod(p, 10000);
    assert(r * b == 10000 * (1965 * i - b * q) + i) by (nonlinear_arith)
        requires
            p == 10000 * q + r,
            p == i * a,
            a * b == 1965 * 10000 + 1,
    ;
    vstd::arithmetic::div_mod::lemma_mod_multiples_vanish(1965 * i - b * q, i, 10000);
}

/// A tick visits every one of the 10000 slots exactly once: distinct steps
/// visit distinct slots, and each slot is visited at some step.
pub proof fn lemma_tick_visits_each_slot_once(i: int, j: int, k: int)
    requires
        0 <= i < 10000,
        0 <= j < 10000,
        0 <= k < 10000,
    ensures
        0 <= tick_slot_spec(i) < 10000,
        tick_slot_spec(i) == tick_slot_spec(j) ==> i == j,
        0 <= (k * 7637) % 10000 < 10000,
        tick_slot_spec((k * 7637) % 10000) == k,
{
    lemma_stride_inverse(i, 2573, 7637);
    lemma_stride_inverse(j, 2573, 7637);
    lemma_stride_inverse(k, 7637, 2573);
}

} // verus!
