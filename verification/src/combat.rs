//! What happens to a ship when enemy fire reaches it: the dodge test, the shields, and the damage
//! that projectiles and beams deal to the hull, the systems and the crew.

use vstd::prelude::*;
use rand::Rng;
use crate::crew::{compute_dodge_chance, Crew};
use crate::nav::Cell;
use crate::ship::{first_room_with, ships, SystemId};
use crate::ship_state::ShipState;

verus! {

/// Rolls a percentage: a random number below 100.
///
/// Calls `rand::thread_rng().gen_range(0..100)`, which (by rand's documentation) returns a value
/// in the half-open range `0..100`. Nothing else is claimed of the value: it comes from a
/// random generator.
#[verifier::external_body]
fn roll_percent() -> (r: usize)
    ensures
        r < 100,
{
    rand::thread_rng().gen_range(0..100)
}

/// Whether a projectile is dodged, given the ship's dodge chance in percent and a roll below
/// 100: it is when the roll falls below the chance.
pub open spec fn spec_dodges(dodge_chance: nat, roll: nat) -> bool {
    roll < dodge_chance
}

/// Whether a projectile is dodged, given the ship's dodge chance in percent and a roll below
/// 100 (see [`spec_dodges`]).
pub fn dodges(dodge_chance: usize, roll: usize) -> (r: bool)
    ensures
        r == spec_dodges(dodge_chance as nat, roll as nat),
{
    roll < dodge_chance
}

/// How a projectile meets the shields of the ship it is aimed at.
#[derive(Clone, Copy, Debug, PartialEq, Eq, Structural)]
pub enum ShieldOutcome {
    /// The ship has no shields system; the projectile is not stopped.
    NoShields,
    /// The projectile's shield pierce is at least the number of layers: it goes on to the hull.
    PassedThrough,
    /// The projectile is stopped, taking down one layer.
    Blocked,
}

/// The elements of `s` whose flag in `keep` is `true`, in order.
pub open spec fn kept<T>(s: Seq<T>, keep: Seq<bool>) -> Seq<T>
    decreases s.len(),
{
    if s.len() == 0 {
        seq![]
    } else {
        kept(s.drop_last(), keep) + if keep[s.len() - 1] {
            seq![s.last()]
        } else {
            seq![]
        }
    }
}

impl<R: Copy, B: Copy, H> ShipState<R, B, H> {
    /// The ship's chance to dodge a projectile, in percent: five percent per unit of engine
    /// power, none without engines.
    pub open spec fn spec_dodge_chance(&self) -> nat {
        if self.systems.installed(SystemId::Engines) {
            self.systems.power(SystemId::Engines) * 5
        } else {
            0
        }
    }

    /// The dodge chance is five percent per unit of power the engines draw, however damaged they
    /// are, and none without engines: two ships whose engines draw the same power have the same
    /// chance.
    pub proof fn lemma_dodge_chance_is_engine_power(&self, other: &Self)
        ensures
            self.systems.installed(SystemId::Engines) ==> self.spec_dodge_chance() == 5 * self.systems.power(
                SystemId::Engines,
            ),
            !self.systems.installed(SystemId::Engines) ==> self.spec_dodge_chance() == 0,
            self.systems.installed(SystemId::Engines) && other.systems.installed(SystemId::Engines)
                && self.systems.power(SystemId::Engines) == other.systems.power(SystemId::Engines)
                ==> self.spec_dodge_chance() == other.spec_dodge_chance(),
    {
    }

    /// The ship's chance to dodge a projectile, in percent (see [`compute_dodge_chance`]).
    pub fn dodge_chance(&self) -> (r: usize)
        requires
            self.wf(),
            self.systems.power(SystemId::Engines) * 5 <= usize::MAX,
        ensures
            r == self.spec_dodge_chance(),
    {
        match self.systems.current_power(SystemId::Engines) {
            Some(power) => compute_dodge_chance(power),
            None => 0,
        }
    }

    /// The dodge test of a projectile aimed at this ship: rolls a percentage and reports whether
    /// it falls below the ship's dodge chance (see [`dodges`]). Without dodge chance nothing is
    /// dodged; with a chance of 100 or more everything is.
    pub fn test_dodge(&self) -> (dodged: bool)
        requires
            self.wf(),
            self.systems.power(SystemId::Engines) * 5 <= usize::MAX,
        ensures
            exists|roll: usize| roll < 100 && dodged == #[trigger] spec_dodges(self.spec_dodge_chance(), roll as nat),
            self.spec_dodge_chance() == 0 ==> !dodged,
            self.spec_dodge_chance() >= 100 ==> dodged,
    {
        let chance = self.dodge_chance();
        let roll = roll_percent();
        dodges(chance, roll)
    }

    /// A projectile with the given shield pierce reaches this ship's shields. If its pierce is
    /// below the number of layers, one layer goes down and the projectile is stopped.
    pub fn shield_interact(&mut self, shield_pierce: usize) -> (r: ShieldOutcome)
        requires
            old(self).wf(),
        ensures
            final(self).wf(),
            old(self).same_but_power(&*final(self)),
            final(self).reactor == old(self).reactor,
            final(self).systems.engines == old(self).systems.engines,
            final(self).systems.weapons == old(self).systems.weapons,
            match old(self).systems.shields {
                None => r == ShieldOutcome::NoShields && final(self).systems.shields is None,
                Some(s0) => if shield_pierce >= s0.0.layers {
                    r == ShieldOutcome::PassedThrough && final(self).systems.shields == Some(s0)
                } else {
                    &&& r == ShieldOutcome::Blocked
                    &&& final(self).systems.shields matches Some(s1)
                    &&& s1.1 == s0.1
                    &&& s1.0.layers == s0.0.layers - 1
                    &&& s1.0.status == s0.0.status
                    &&& s1.0.current_power == s0.0.current_power
                },
            },
    {
        match &mut self.systems.shields {
            None => ShieldOutcome::NoShields,
            Some(s) => {
                if shield_pierce >= s.0.layers {
                    ShieldOutcome::PassedThrough
                } else {
                    s.0.layers = s.0.layers - 1;
                    ShieldOutcome::Blocked
                }
            },
        }
    }

    /// Whether each crew member stands in the room `room`, given the cell each is on.
    fn crew_in_room(&self, crew_cells: &Vec<Cell>, room: Option<usize>) -> (r: Vec<bool>)
        requires
            self.wf(),
        ensures
            r@.len() == crew_cells@.len(),
            forall|i: int|
                0 <= i < crew_cells@.len() ==> #[trigger] r@[i] == (first_room_with(
                    self.rooms(),
                    crew_cells@[i],
                ) == room),
    {
        let layouts = ships();
        let layout = &layouts[self.ship_type];
        proof {
            assert(layout.room_cells() == self.rooms());
        }
        let mut hits: Vec<bool> = Vec::new();
        let mut i: usize = 0;
        while i < crew_cells.len()
            invariant
                layout.room_cells() == self.rooms(),
                i <= crew_cells@.len(),
                hits@.len() == i,
                forall|j: int|
                    0 <= j < i ==> #[trigger] hits@[j] == (first_room_with(
                        self.rooms(),
                        crew_cells@[j],
                    ) == room),
            decreases crew_cells.len() - i,
        {
            hits.push(layout.cell_room(crew_cells[i]) == room);
            i = i + 1;
        }
        hits
    }

    /// The hull after `damage` more, capped at the hull's maximum.
    pub open spec fn damaged_hull(&self, damage: usize) -> nat {
        if self.damage + damage < self.max_hull {
            (self.damage + damage) as nat
        } else {
            self.max_hull as nat
        }
    }

    /// A projectile dealing `damage` hits room `room` of this ship: the hull takes the damage
    /// (up to its maximum) and so does the system housed in the room, if any. Returns, given the
    /// cell each crew member is on, whether each stands in the room and is hurt.
    pub fn projectile_hit(&mut self, room: usize, damage: usize, crew_cells: &Vec<Cell>) -> (hurt:
        Vec<bool>)
        requires
            old(self).wf(),
            old(self).damage + damage <= usize::MAX,
        ensures
            final(self).wf(),
            final(self).damage == old(self).damaged_hull(damage),
            final(self).reactor.upgrade_level == old(self).reactor.upgrade_level,
            match old(self).systems.room_system(room) {
                Some(system) => old(self).systems.took_damage(final(self).systems, system, damage),
                None => final(self).systems == old(self).systems && final(self).reactor == old(self).reactor,
            },
            final(self).ship_type == old(self).ship_type,
            final(self).max_hull == old(self).max_hull,
            final(self).crew@ == old(self).crew@,
            final(self).missiles == old(self).missiles,
            final(self).nav_mesh == old(self).nav_mesh,
            final(self).path_graph == old(self).path_graph,
            final(self).doors == old(self).doors,
            hurt@.len() == crew_cells@.len(),
            forall|i: int|
                0 <= i < crew_cells@.len() ==> #[trigger] hurt@[i] == (first_room_with(
                    old(self).rooms(),
                    crew_cells@[i],
                ) == Some(room)),
    {
        self.damage = if self.damage + damage < self.max_hull {
            self.damage + damage
        } else {
            self.max_hull
        };
        let hurt = self.crew_in_room(crew_cells, Some(room));
        match self.systems.system_in_room(room) {
            Some(system) => {
                self.systems.damage_system(system, damage, &mut self.reactor);
            },
            None => {},
        }
        hurt
    }

    /// A beam dealing `damage` reaches `cell` of this ship, in `room` if this is the first cell
    /// of that room the beam crosses. The shield layers absorb part of the damage; what is left
    /// hurts the crew standing in the cell's room and, for the first cell of a room, the hull
    /// (up to its maximum) and the system housed in the room. Returns the damage left and,
    /// given the cell each crew member is on, whether each is hurt.
    pub fn beam_hit(
        &mut self,
        cell: Cell,
        room: Option<usize>,
        damage: usize,
        crew_cells: &Vec<Cell>,
    ) -> (r: (usize, Vec<bool>))
        requires
            old(self).wf(),
            old(self).damage + damage <= usize::MAX,
        ensures
            final(self).wf(),
            r.0 == (match old(self).systems.shields {
                Some(s) => if damage > s.0.layers {
                    (damage - s.0.layers) as usize
                } else {
                    0
                },
                None => damage,
            }),
            final(self).reactor.upgrade_level == old(self).reactor.upgrade_level,
            match room {
                Some(rm) => {
                    &&& final(self).damage == old(self).damaged_hull(r.0)
                    &&& match old(self).systems.room_system(rm) {
                        Some(system) => old(self).systems.took_damage(final(self).systems, system, r.0),
                        None => final(self).systems == old(self).systems && final(self).reactor
                            == old(self).reactor,
                    }
                },
                None => {
                    &&& final(self).damage == old(self).damage
                    &&& final(self).systems == old(self).systems
                    &&& final(self).reactor == old(self).reactor
                },
            },
            final(self).ship_type == old(self).ship_type,
            final(self).max_hull == old(self).max_hull,
            final(self).crew@ == old(self).crew@,
            final(self).missiles == old(self).missiles,
            final(self).nav_mesh == old(self).nav_mesh,
            final(self).path_graph == old(self).path_graph,
            final(self).doors == old(self).doors,
            r.1@.len() == crew_cells@.len(),
            forall|i: int|
                0 <= i < crew_cells@.len() ==> #[trigger] r.1@[i] == (first_room_with(
                    old(self).rooms(),
                    crew_cells@[i],
                ) == first_room_with(old(self).rooms(), cell)),
    {
        let layers = match &self.systems.shields {
            Some(s) => s.0.layers,
            None => 0,
        };
        let damage = if damage > layers {
            damage - layers
        } else {
            0
        };
        let layouts = ships();
        let cell_room = layouts[self.ship_type].cell_room(cell);
        proof {
            assert(layouts@[0].room_cells() == self.rooms());
        }
        let hurt = self.crew_in_room(crew_cells, cell_room);
        match room {
            Some(rm) => {
                self.damage = if self.damage + damage < self.max_hull {
                    self.damage + damage
                } else {
                    self.max_hull
                };
                match self.systems.system_in_room(rm) {
                    Some(system) => {
                        self.systems.damage_system(system, damage, &mut self.reactor);
                    },
                    None => {},
                }
            },
            None => {},
        }
        (damage, hurt)
    }

    /// Removes the crew members whose flag in `keep` is `false` (those whose health ran out),
    /// keeping the others in order.
    pub fn retain_crew(&mut self, keep: &Vec<bool>)
        requires
            old(self).wf(),
            keep@.len() == old(self).crew@.len(),
        ensures
            final(self).wf(),
            final(self).crew@ == kept(old(self).crew@, keep@),
            final(self).ship_type == old(self).ship_type,
            final(self).reactor == old(self).reactor,
            final(self).systems == old(self).systems,
            final(self).max_hull == old(self).max_hull,
            final(self).damage == old(self).damage,
            final(self).missiles == old(self).missiles,
            final(self).nav_mesh == old(self).nav_mesh,
            final(self).path_graph == old(self).path_graph,
            final(self).doors == old(self).doors,
    {
        let ghost s0 = *self;
        let ghost c0 = self.crew@;
        let mut old_crew: Vec<Crew<H>> = Vec::new();
        std::mem::swap(&mut old_crew, &mut self.crew);
        let mut rev: Vec<Crew<H>> = Vec::new();
        let mut i: usize = old_crew.len();
        proof {
            assert(c0.take(c0.len() as int) =~= c0);
        }
        while i > 0
            invariant
                old_crew@ == c0.take(i as int),
                i <= c0.len(),
                keep@.len() == c0.len(),
                kept(c0, keep@) == kept(c0.take(i as int), keep@) + rev@.reverse(),
            decreases i,
        {
            let member = old_crew.pop().unwrap();
            proof {
                let t = c0.take(i as int);
                assert(t.drop_last() =~= c0.take(i - 1));
                assert(t.last() == member);
                assert(old_crew@ =~= c0.take(i - 1));
            }
            if keep[i - 1] {
                let ghost r0 = rev@;
                rev.push(member);
                proof {
                    assert(rev@.reverse() =~= seq![member] + r0.reverse());
                    assert(kept(c0, keep@) =~= kept(c0.take(i - 1), keep@) + rev@.reverse());
                }
            } else {
                proof {
                    assert(kept(c0, keep@) =~= kept(c0.take(i - 1), keep@) + rev@.reverse());
                }
            }
            i = i - 1;
        }
        proof {
            assert(c0.take(0) =~= Seq::<Crew<H>>::empty());
            assert(kept(c0, keep@) =~= rev@.reverse());
        }
        while rev.len() > 0
            invariant
                self.crew@ + rev@.reverse() == kept(c0, keep@),
                self.ship_type == s0.ship_type,
                self.reactor == s0.reactor,
                self.systems == s0.systems,
                self.max_hull == s0.max_hull,
                self.damage == s0.damage,
                self.missiles == s0.missiles,
                self.nav_mesh == s0.nav_mesh,
                self.path_graph == s0.path_graph,
                self.doors == s0.doors,
            decreases rev.len(),
        {
            let ghost r0 = rev@;
            let member = rev.pop().unwrap();
            proof {
                assert(r0.reverse() =~= seq![member] + rev@.reverse());
            }
            self.crew.push(member);
            proof {
                assert(self.crew@ + rev@.reverse() =~= kept(c0, keep@));
            }
        }
        proof {
            assert(self.crew@ =~= kept(c0, keep@));
            lemma_kept_from(c0, keep@);
            assert forall|k: int| 0 <= k < self.crew@.len() implies #[trigger] crate::ship_state::crew_fits(
                self.nav_mesh,
                self.path_graph,
                self.crew@[k].nav_status,
            ) by {
                assert(self.crew@[k] == kept(c0, keep@)[k]);
                let j = choose|j: int| 0 <= j < c0.len() && c0[j] == self.crew@[k];
                assert(crate::ship_state::crew_fits(s0.nav_mesh, s0.path_graph, c0[j].nav_status));
            }
            assert forall|k: int| 0 <= k < self.crew@.len() implies (#[trigger] self.crew@[k].station matches Some(
                c,
            ) ==> self.path_graph.has_node(c)) by {
                assert(self.crew@[k] == kept(c0, keep@)[k]);
                let j = choose|j: int| 0 <= j < c0.len() && c0[j] == self.crew@[k];
                assert(c0[j].station == self.crew@[k].station);
            }
        }
    }
}

/// Every element that [`kept`] keeps comes from the sequence.
pub proof fn lemma_kept_from<T>(s: Seq<T>, keep: Seq<bool>)
    ensures
        forall|k: int|
            0 <= k < kept(s, keep).len() ==> exists|j: int| 0 <= j < s.len() && s[j] == #[trigger] kept(s, keep)[k],
    decreases s.len(),
{
    if s.len() > 0 {
        let s0 = s.drop_last();
        lemma_kept_from(s0, keep);
        let k0 = kept(s0, keep);
        assert forall|k: int| 0 <= k < kept(s, keep).len() implies exists|j: int|
            0 <= j < s.len() && s[j] == #[trigger] kept(s, keep)[k] by {
            if k < k0.len() {
                assert(kept(s, keep)[k] == k0[k]);
                let j = choose|j: int| 0 <= j < s0.len() && s0[j] == #[trigger] k0[k];
                assert(s[j] == s0[j]);
            } else {
                assert(kept(s, keep)[k] == s.last());
                assert(s[s.len() - 1] == s.last());
            }
        }
    }
}

} // verus!
