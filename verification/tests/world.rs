use std::sync::Arc;

use rand::rngs::StdRng;
use rand::SeedableRng;

use are_world::conf::{Creature, GameConf};
use are_world::cosmos::{Cosmos, MobBox, MobRefMut, ReadGuard, WriteGuard, _MobBlock};
use are_world::deamon::{grounds_valid_at, Deamon};
use are_world::gen::{gen_bio, gen_structures, pick_gene, place_bio, place_first_free, sow_cell, templates_usable};
use are_world::grids::{Coord, Interval};
use are_world::mob::atk::ATK;
use are_world::mob::bio::{Bio, BioAction, BioTarget};
use are_world::mob::bio_hear::{can_hear, deliver_messages};
use are_world::mob::bio_order::{fits, species_usable};
use are_world::mob::gene::{delete_mutate, insert_mutate, is_insertable, AcidWeight, Gene};
use are_world::mob::letters::{Msg, Order, Post};
use are_world::mob::mech::Mech;
use are_world::mob::pool::{Mutation, SpeciesPool};
use are_world::plate::is_normal_area;
use are_world::mob::species::Species;
use are_world::refs::Weak;
use are_world::weighted::weighted_index;

fn area(x0: isize, x1: isize, y0: isize, y1: isize) -> Coord<Interval<isize>> {
    Coord(Interval { from: x0, to: x1 }, Interval { from: y0, to: y1 })
}

fn gene(names: &[&str]) -> Gene {
    Gene { acids: names.iter().map(|s| s.to_string()).collect() }
}

fn species(threat: i32, chase: i32) -> Species {
    Species {
        gene: gene(&["a"]),
        name: "a".to_string(),
        wake_period: 4,
        wake_energy_consume: 1,
        energy_cost: 1,
        spawn_loss: 1,
        spawn_init_energy: 50,
        incubation_delay: 3,
        size: Coord(0, 0),
        watch_period: 1,
        watch_range: 2,
        move_period: 1,
        move_cost: 1,
        eat_threshold: 10,
        eat_takes: 5,
        max_hp: 10,
        threat,
        atk: ATK::Normal(3),
        attack_cost: 1,
        flee_threshold: 100,
        fight_back_threshold: 0,
        attack_range: Coord(1, 1),
        chase_threshold: chase,
        regeneration: 1,
        regeneration_cost: 1,
    }
}

fn species_of(g: &Gene, threat: i32, chase: i32) -> Species {
    let mut s = species(threat, chase);
    s.gene = g.clone();
    s
}

fn world() -> Cosmos<Bio> {
    Cosmos::new(&GameConf { chunk_count: Coord(3, 3), chunk_size: Coord(4, 4), padding: Coord(1, 1) })
}

fn put(c: &mut Cosmos<Bio>, at: Coord<Interval<isize>>, bio: Bio) -> Weak {
    let b = MobBox::new(_MobBlock::new(at, bio)).unwrap();
    match c.set(b) {
        Ok(w) => w,
        Err(_) => panic!("cell taken"),
    }
}

#[test]
fn cosmos_new_from_conf() {
    let c = world();
    assert_eq!(c.plate.size, Coord(12, 12));
    assert_eq!(c.plate.blocks.len(), 144);
    assert_eq!(c.mobs.len(), 0);
    assert_eq!(c.properties.tick, 0);
    assert_eq!(c.ripper.bound_size, Coord(12, 12));
    assert_eq!(c.ripper.padding, Coord(4, 4));
}

#[test]
fn add_tick_counts_time() {
    let mut c = world();
    c.add_tick();
    c.add_tick();
    assert_eq!(c.properties.tick, 2);
    assert_eq!(c.mobs.len(), 0);
}

#[test]
fn set_refuses_taken_cells() {
    let mut c = world();
    let sp = Arc::new(species(1, 0));
    let w = put(&mut c, area(1, 2, 1, 1), Bio::new(sp.clone(), 5));
    assert_eq!(w.slot, 0);
    assert_eq!(c.mob_on(Coord(2, 1)), Some(0));
    let b = MobBox::new(_MobBlock::new(area(2, 2, 0, 1), Bio::new(sp.clone(), 5))).unwrap();
    assert!(c.set(b).is_err());
    // an area over the edge wraps around
    let w2 = put(&mut c, area(11, 12, 5, 5), Bio::new(sp, 5));
    assert_eq!(w2.slot, 1);
    assert_eq!(c.mob_on(Coord(0, 5)), Some(1));
    assert_eq!(c.mob_on(Coord(11, 5)), Some(1));
}

#[test]
fn take_and_reset() {
    let mut c = world();
    let sp = Arc::new(species(1, 0));
    let w = put(&mut c, area(3, 3, 3, 3), Bio::new(sp.clone(), 5));
    let m = MobRefMut { slot: w.slot };
    assert_eq!(w.strong_count(&c), 1);
    assert!(c.reset(&m, area(4, 4, 3, 3)).is_ok());
    assert_eq!(c.mob_on(Coord(3, 3)), None);
    assert_eq!(c.mob_on(Coord(4, 3)), Some(0));
    assert_eq!(m.at(&c), area(4, 4, 3, 3));
    assert_eq!(m.get_const(&c).slot, 0);
    assert_eq!(m.get_const(&c).at(), area(4, 4, 3, 3));
    let other = put(&mut c, area(6, 6, 6, 6), Bio::new(sp, 5));
    assert!(c.reset(&m, area(6, 6, 6, 6)).is_err());
    let b = c.take(m);
    assert!(!b.block.on_plate);
    assert_eq!(c.mob_on(Coord(4, 3)), None);
    assert!(c.wrap_weak(&w).is_none());
    assert!(c.wrap_weak(&other).is_some());
    assert!(w.upgrade(&c).is_none());
    assert_eq!(w.strong_count(&c), 0);
    assert_eq!(Weak::new().strong_count(&c), 0);
}

#[test]
fn guards_see_the_creatures() {
    let mut c = world();
    let sp = Arc::new(species(1, 0));
    let w = put(&mut c, area(5, 5, 5, 5), Bio::new(sp, 7));
    let g = ReadGuard::new(&c);
    assert_eq!(g.wrap(w.slot).at(), area(5, 5, 5, 5));
    assert_eq!(g.wrap_weak(&w).unwrap().get_inner().mob.energy, 7);
    let wg = WriteGuard::new(&c);
    assert!(wg.wrap_weak(&Weak::new()).is_none());
    assert_eq!(wg.read().wrap(0).slot, 0);
}

#[test]
fn deamon_bounds() {
    let c = world();
    let d = Deamon { bound: area(2, 6, 2, 6) };
    assert!(d.contains(c.plate.size, area(3, 4, 3, 4)));
    assert!(!d.contains(c.plate.size, area(5, 7, 3, 4)));
    assert!(d.contains_pos(c.plate.size, Coord(14, 14)));
    assert!(!d.contains_pos(c.plate.size, Coord(1, 2)));
}

#[test]
fn mech_steps_down_right_and_asks_again() {
    let mut c: Cosmos<Mech> =
        Cosmos::new(&GameConf { chunk_count: Coord(2, 2), chunk_size: Coord(4, 4), padding: Coord(1, 1) });
    let b = MobBox::new(_MobBlock::new(area(2, 3, 5, 5), Mech {})).unwrap();
    let w = match c.set(b) {
        Ok(w) => w,
        Err(_) => panic!("cell taken"),
    };
    assert_eq!(Mech {}.get_name(), "delete this");
    let d = Deamon { bound: area(0, 7, 0, 7) };
    let post = Mech::order(&mut c, &d, MobRefMut { slot: w.slot });
    assert_eq!(c.mobs[0].as_ref().unwrap().at, area(3, 3, 6, 6));
    assert_eq!(c.mob_on(Coord(2, 5)), None);
    assert_eq!(c.mob_on(Coord(3, 6)), Some(0));
    match post {
        Post::Order { to, order: Order::MobMainTick, delay } => {
            assert_eq!(to.slot, 0);
            assert_eq!(delay, 1);
        }
        _ => panic!("expected the next main tick"),
    }
}

#[test]
fn attack_takes_hit_points_down_to_zero() {
    let mut b = Bio::new(Arc::new(species(1, 0)), 5);
    b.being_attacked(ATK::Normal(4));
    assert_eq!(b.hp, 6);
    b.being_attacked(ATK::Normal(40));
    assert_eq!(b.hp, 0);
}

#[test]
fn order_without_main_tick_only_takes_attacks() {
    let mut c = world();
    let sp = Arc::new(species(1, 0));
    let w = put(&mut c, area(3, 3, 3, 3), Bio::new(sp.clone(), 50));
    let d = Deamon { bound: area(0, 10, 0, 10) };
    let orders = vec![Order::Attack { atk: ATK::Normal(3), attacker: None, threat: 1 }];
    let r = Bio::order(&mut c, &d, MobRefMut { slot: w.slot }, orders, &sp, &mut Stats::new());
    assert!(!r.acted);
    assert!(!r.died);
    assert!(r.posts.is_empty());
    assert_eq!(c.mobs[0].as_ref().unwrap().mob.hp, 7);
    assert_eq!(c.mobs[0].as_ref().unwrap().mob.age, 0);
}

#[test]
fn starving_creature_dies() {
    let mut c = world();
    let sp = Arc::new(species(1, 0));
    let w = put(&mut c, area(3, 3, 3, 3), Bio::new(sp.clone(), 0));
    let d = Deamon { bound: area(0, 10, 0, 10) };
    let r = Bio::order(&mut c, &d, MobRefMut { slot: w.slot }, vec![Order::MobMainTick], &sp, &mut Stats::new());
    assert!(r.acted);
    assert!(r.died);
    assert!(c.mobs[0].is_none());
    assert_eq!(c.mob_on(Coord(3, 3)), None);
}

#[test]
fn main_tick_ages_and_charges() {
    let mut c = world();
    let sp = Arc::new(species(1, 0));
    let w = put(&mut c, area(3, 3, 3, 3), Bio::new(sp.clone(), 50));
    let d = Deamon { bound: area(0, 10, 0, 10) };
    let r = Bio::order(&mut c, &d, MobRefMut { slot: w.slot }, vec![Order::MobMainTick], &sp, &mut Stats::new());
    assert!(r.acted);
    assert!(!r.died);
    let b = &c.mobs[0].as_ref().unwrap().mob;
    assert_eq!(b.age, 1);
    assert_eq!(b.energy, 49);
}

#[test]
fn main_tick_eats_the_target_cell() {
    let mut c = world();
    c.properties.tick = 100;
    let grass = are_world::gnd::Item::Plant(are_world::gnd::plant::Plant { kind: 0, birthday: 0 });
    c.plate.blocks[3 * 12 + 4].ground.item = grass;
    let mut hungry = species(1, 0);
    hungry.eat_takes = 100;
    let sp = Arc::new(hungry);
    let w = put(&mut c, area(3, 3, 3, 3), Bio::new(sp.clone(), 50));
    let mut aim = BioTarget::new();
    aim.action = BioAction::Eat;
    aim.action_range = Coord(1, 1);
    aim.target = Some(area(4, 4, 3, 3));
    c.mobs[0].as_mut().unwrap().mob.target.target = aim;
    let before = c.plate.blocks[3 * 12 + 4].ground.energy(100);
    let d = Deamon { bound: area(0, 10, 0, 10) };
    let r = Bio::order(&mut c, &d, MobRefMut { slot: w.slot }, vec![Order::MobMainTick], &sp, &mut Stats::new());
    assert!(r.acted && !r.died);
    assert_eq!(r.eaten, Some(100));
    assert_eq!(c.mobs[0].as_ref().unwrap().mob.energy, 149);
    assert_eq!(c.plate.blocks[3 * 12 + 4].ground.energy(100), before - 100);
    assert_eq!(c.plate.blocks[3 * 12 + 5].ground.energy(100), 0);
}

#[test]
fn hear_without_wake_does_nothing() {
    let mut c = world();
    let w = put(&mut c, area(3, 3, 3, 3), Bio::new(Arc::new(species(1, 0)), 50));
    let mut rng = StdRng::seed_from_u64(1);
    let posts = Bio::hear(&mut c, MobRefMut { slot: w.slot }, &vec![], &mut rng);
    assert!(posts.is_empty());
    assert_eq!(c.mobs[0].as_ref().unwrap().mob.target.target.action, BioAction::Nothing);
}

#[test]
fn hear_wakes_and_strolls() {
    let mut c = world();
    let w = put(&mut c, area(3, 3, 3, 3), Bio::new(Arc::new(species(1, 0)), 50));
    let mut rng = StdRng::seed_from_u64(2);
    let posts = Bio::hear(&mut c, MobRefMut { slot: w.slot }, &vec![Msg::Wake], &mut rng);
    assert_eq!(posts.len(), 2);
    assert!(matches!(posts[0], Post::Tell { to: Weak { slot: 0 }, msg: Msg::Wake, delay: 4 }));
    assert!(matches!(posts[1], Post::Order { to: Weak { slot: 0 }, order: Order::MobMainTick, delay: 0 }));
    let t = c.mobs[0].as_ref().unwrap().mob.target.target;
    assert_eq!(t.action, BioAction::Stroll);
    assert_eq!(t.action_weight, 0);
    let a = t.target.unwrap();
    assert!(0 <= a.0.from && a.0.from < 12 && a.0.to == a.0.from);
    assert!(0 <= a.1.from && a.1.from < 12 && a.1.to == a.1.from);
}

#[test]
fn hear_spots_prey() {
    let mut c = world();
    let w = put(&mut c, area(1, 1, 1, 1), Bio::new(Arc::new(species(0, 5)), 50));
    let prey = put(&mut c, area(2, 2, 1, 1), Bio::new(Arc::new(species(1, 0)), 50));
    let mut rng = StdRng::seed_from_u64(3);
    Bio::hear(&mut c, MobRefMut { slot: w.slot }, &vec![Msg::Wake], &mut rng);
    let t = c.mobs[0].as_ref().unwrap().mob.target.target;
    assert_eq!(t.action, BioAction::Chase);
    assert_eq!(t.action_weight, 4);
    assert_eq!(t.target, Some(area(2, 2, 1, 1)));
    assert_eq!(t.target_mob, Some(prey));
    assert_eq!(t.action_range, Coord(1, 1));
}

#[test]
fn hear_follows_target_creature() {
    let mut c = world();
    let w = put(&mut c, area(1, 1, 1, 1), Bio::new(Arc::new(species(0, 5)), 50));
    let prey = put(&mut c, area(7, 7, 7, 7), Bio::new(Arc::new(species(1, 0)), 50));
    let mut aim = BioTarget::new();
    aim.action = BioAction::Chase;
    aim.target_mob = Some(prey);
    c.mobs[0].as_mut().unwrap().mob.target.target = aim;
    let mut rng = StdRng::seed_from_u64(4);
    Bio::hear(&mut c, MobRefMut { slot: w.slot }, &vec![Msg::Wake], &mut rng);
    assert_eq!(c.mobs[0].as_ref().unwrap().mob.target.target.target, Some(area(7, 7, 7, 7)));
    // once the prey is gone, it is forgotten
    c.mobs[0].as_mut().unwrap().mob.target.target = aim;
    c.take(MobRefMut { slot: prey.slot });
    Bio::hear(&mut c, MobRefMut { slot: w.slot }, &vec![Msg::Wake], &mut rng);
    let t = c.mobs[0].as_ref().unwrap().mob.target.target;
    assert_eq!(t.target, None);
    assert_eq!(t.target_mob, None);
    assert_eq!(t.action, BioAction::Chase);
}

#[test]
fn weighted_index_lands_by_weight() {
    let w = vec![1usize, 0, 3];
    assert_eq!(weighted_index(&w, 0), 0);
    assert_eq!(weighted_index(&w, 1), 2);
    assert_eq!(weighted_index(&w, 3), 2);
}

#[test]
fn mutations_change_length_by_one() {
    let mut rng = StdRng::seed_from_u64(5);
    let table = vec![AcidWeight { name: "x".to_string(), mutate_rate: 2 }];
    let g = insert_mutate(gene(&["a", "b"]), &mut rng, &table);
    assert_eq!(g.acids.len(), 3);
    assert_eq!(g.acids.iter().filter(|s| s.as_str() == "x").count(), 1);
    let g2 = delete_mutate(g, &mut rng);
    assert_eq!(g2.acids.len(), 2);
    let empty = delete_mutate(gene(&[]), &mut rng);
    assert_eq!(empty.acids.len(), 0);
}

#[test]
fn pick_gene_grows_template() {
    let mut rng = StdRng::seed_from_u64(6);
    let creatures = vec![
        Creature { weight: 0, insertions: 0, gene: gene(&["never"]) },
        Creature { weight: 2, insertions: 2, gene: gene(&["a"]) },
    ];
    let table = vec![AcidWeight { name: "x".to_string(), mutate_rate: 1 }];
    let g = pick_gene(&creatures, &table, &mut rng);
    assert_eq!(g.acids.len(), 3);
    assert_eq!(g.acids.iter().filter(|s| s.as_str() == "a").count(), 1);
    assert_eq!(g.acids.iter().filter(|s| s.as_str() == "x").count(), 2);
}

#[test]
fn species_pool_keeps_one_species_per_gene() {
    let mut pool = SpeciesPool::new();
    let a = pool.new_species(gene(&["a"]), |g: &Gene| species_of(g, 1, 0));
    let a2 = pool.new_species(gene(&["a"]), |g: &Gene| species_of(g, 9, 0));
    assert!(Arc::ptr_eq(&a, &a2));
    assert_eq!(a2.threat, 1);
    let b = pool.new_species(gene(&["a", "b"]), |g: &Gene| species_of(g, 2, 0));
    assert_eq!(b.threat, 2);
    let snap = pool.snapshot();
    assert_eq!(snap.len(), 2);
    assert_eq!(snap[0].0.acids, vec!["a".to_string()]);
    assert_eq!(snap[1].0.acids, vec!["a".to_string(), "b".to_string()]);
    let again = pool.snapshot();
    assert!(Arc::ptr_eq(&snap, &again));
    let a3 = pool.new_species(gene(&["a"]), |g: &Gene| species_of(g, 5, 0));
    assert!(Arc::ptr_eq(&a, &a3));
    assert!(Arc::ptr_eq(&snap, &pool.snapshot()));
    assert_eq!(b.gene.acids, vec!["a".to_string(), "b".to_string()]);
}

#[test]
fn place_bio_sets_creature_or_leaves_world() {
    let mut c = world();
    let mut rng = StdRng::seed_from_u64(7);
    let sp = Arc::new(species(1, 0));
    assert!(place_bio(&mut c, Bio::new(sp.clone(), 5), 0, &mut rng).is_none());
    assert_eq!(c.mobs.len(), 0);
    let w = place_bio(&mut c, Bio::new(sp.clone(), 5), 3, &mut rng).unwrap();
    assert_eq!(w.slot, 0);
    let mut big = species(1, 0);
    big.size = Coord(12, 0);
    assert!(place_bio(&mut c, Bio::new(Arc::new(big), 5), 3, &mut rng).is_none());
    assert_eq!(c.mobs.len(), 1);
}

#[test]
fn gen_bio_spawns_and_wakes() {
    let mut c = world();
    let mut pool = SpeciesPool::new();
    let mut rng = StdRng::seed_from_u64(8);
    let creatures = vec![Creature { weight: 1, insertions: 0, gene: gene(&["a"]) }];
    let mut stats = Stats::new();
    let posts = gen_bio(&mut c, &mut pool, &mut stats, 3, &creatures, &vec![], 10, &mut rng, |g: &Gene| species_of(g, 1, 0));
    assert_eq!(stats.bio_energy_store.total(&gene(&["a"])), 150);
    assert_eq!(posts.len(), c.mobs.len());
    assert_eq!(posts.len(), 3);
    for (k, p) in posts.iter().enumerate() {
        match p {
            Post::Tell { to, msg: Msg::Wake, delay } => {
                assert_eq!(to.slot, k);
                assert_eq!(*delay, 3);
            }
            _ => panic!("not a wake-up"),
        }
        let b = &c.mobs[k].as_ref().unwrap().mob;
        assert_eq!(b.energy, 50);
        assert_eq!(b.age, 0);
        assert_eq!(b.hp, 10);
    }
    assert_eq!(pool.species_list.len(), 1);
}

use are_world::observe::plate::PlateView;
use are_world::observe::stats::Stats;
use are_world::observe::species::SpeciesStats;
use are_world::singletons::Singletons;

#[test]
fn deamon_lists_grounds_of_an_area() {
    let c = world();
    let d = Deamon { bound: area(2, 6, 2, 6) };
    let cells = d.get_ground_iter(&c, area(5, 6, 3, 3)).unwrap();
    let at: Vec<_> = cells.iter().map(|(p, _)| *p).collect();
    assert_eq!(at, vec![Coord(5, 3), Coord(6, 3)]);
    assert!(d.get_ground_iter(&c, area(5, 7, 3, 3)).is_err());
}

#[test]
fn plate_view_shows_cells() {
    let mut c = world();
    let sp = Arc::new(species(1, 0));
    put(&mut c, area(1, 1, 1, 1), Bio::new(sp, 5));
    let v = PlateView::new(&c, area(0, 2, 1, 1));
    assert_eq!(v.matrix.size, Coord(3, 1));
    assert_eq!(v.matrix.data[0].mob, 0);
    assert_eq!(v.matrix.data[1].mob, 1);
    assert_eq!(v.matrix.data[1].item, "air");
    assert_eq!(v.matrix.data[1].energy, 0);
    // cells past the edge come round
    let w = PlateView::new(&c, area(13, 13, 1, 1));
    assert_eq!(w.matrix.data[0].mob, 1);
}

#[test]
fn species_stats_count_population() {
    let mut c = world();
    let mut s = Singletons::new();
    let a = s.species_pool.new_species(gene(&["a"]), |g: &Gene| species_of(g, 1, 0));
    let _b = s.species_pool.new_species(gene(&["b", "c"]), |g: &Gene| species_of(g, 2, 0));
    put(&mut c, area(1, 1, 1, 1), Bio::new(a.clone(), 5));
    put(&mut c, area(3, 3, 3, 3), Bio::new(a, 5));
    let stats = SpeciesStats::new(&c, &mut s.species_pool);
    assert_eq!(stats.species.len(), 2);
    assert_eq!(stats.species[0].1.name, "a");
    assert_eq!(stats.species[0].1.population, 2);
    assert_eq!(stats.species[1].1.name, "bc");
    assert_eq!(stats.species[1].1.population, 0);
}

#[test]
fn bio_count_counts_creatures_of_the_species() {
    let mut c = world();
    let a = Arc::new(species(1, 0));
    put(&mut c, area(1, 1, 1, 1), Bio::new(a.clone(), 5));
    put(&mut c, area(3, 3, 3, 3), Bio::new(a.clone(), 5));
    assert_eq!(Species::bio_count(&c, &a), 2);
    let mut other = species(1, 0);
    other.gene = gene(&["z"]);
    assert_eq!(Species::bio_count(&c, &other), 0);
}

#[test]
fn deamon_changes_a_ground_in_place() {
    let mut c = world();
    let d = Deamon { bound: area(2, 6, 2, 6) };
    match d.get_ground_mut(&mut c, Coord(15, 16)) {
        Ok(g) => g.item = are_world::gnd::Item::Plant(are_world::gnd::plant::Plant { kind: 1, birthday: 0 }),
        Err(_) => panic!("inside the bound"),
    }
    assert_eq!(c.plate.blocks[4 * 12 + 3].ground.to_string(), "tree");
    assert_eq!(d.get_ground(&c, Coord(3, 4)).unwrap().to_string(), "tree");
    assert!(d.get_ground_mut(&mut c, Coord(0, 0)).is_err());
}

#[test]
fn clone_species_by_mutation() {
    let mut pool = SpeciesPool::new();
    let parent = pool.new_species(gene(&["a", "b"]), |g: &Gene| {
        let mut s = species(1, 0);
        s.gene = g.clone();
        s
    });
    let table = vec![AcidWeight { name: "x".to_string(), mutate_rate: 1 }];
    let mut rng = StdRng::seed_from_u64(11);
    let make = |g: &Gene| {
        let mut s = species(2, 0);
        s.gene = g.clone();
        s
    };
    let same = pool.clone_species(&parent, Mutation::Keep, &mut rng, &table, make);
    assert!(Arc::ptr_eq(&same, &parent));
    let longer = pool.clone_species(&parent, Mutation::Insert, &mut rng, &table, make);
    assert_eq!(longer.gene.acids.len(), 3);
    assert_eq!(longer.gene.acids.iter().filter(|s| s.as_str() == "x").count(), 1);
    let shorter = pool.clone_species(&parent, Mutation::Remove, &mut rng, &table, make);
    assert_eq!(shorter.gene.acids.len(), 1);
    assert_eq!(pool.snapshot().len(), 3);
}

#[test]
fn checks_of_what_calls_need() {
    let table = vec![AcidWeight { name: "x".to_string(), mutate_rate: 1 }];
    assert!(is_insertable(&table));
    assert!(!is_insertable(&vec![AcidWeight { name: "x".to_string(), mutate_rate: 0 }]));
    assert!(!is_insertable(&vec![
        AcidWeight { name: "x".to_string(), mutate_rate: usize::MAX },
        AcidWeight { name: "y".to_string(), mutate_rate: 1 },
    ]));
    let ok = vec![Creature { weight: 1, insertions: 1, gene: gene(&["a"]) }];
    assert!(templates_usable(&ok, &table));
    assert!(!templates_usable(&ok, &vec![]));
    assert!(!templates_usable(&vec![Creature { weight: 0, insertions: 0, gene: gene(&["a"]) }], &table));
    let size = Coord(12, 12);
    assert!(is_normal_area(size, area(11, 12, 0, 11)));
    assert!(!is_normal_area(size, area(12, 12, 0, 0)));
    assert!(!is_normal_area(size, area(0, 12, 0, 0)));
    assert!(fits(size, Coord(11, 0)));
    assert!(!fits(size, Coord(12, 0)));
    assert!(species_usable(size, &species(1, 0)));
    let mut lazy = species(1, 0);
    lazy.move_period = 0;
    assert!(!species_usable(size, &lazy));
    let mut c = world();
    assert!(grounds_valid_at(&c.plate, 0));
    c.plate.blocks[5].ground.item = are_world::gnd::Item::Plant(are_world::gnd::plant::Plant { kind: 0, birthday: 3 });
    assert!(!grounds_valid_at(&c.plate, 2));
    assert!(grounds_valid_at(&c.plate, 3));
    let w = put(&mut c, area(1, 1, 1, 1), Bio::new(Arc::new(species(1, 0)), 5));
    assert!(can_hear(&c, w.slot));
    let mut blind = species(1, 0);
    blind.watch_period = 0;
    let w2 = put(&mut c, area(4, 4, 4, 4), Bio::new(Arc::new(blind), 5));
    assert!(!can_hear(&c, w2.slot));
}

#[test]
fn configurations_that_shape_a_world() {
    use_conf(GameConf { chunk_count: Coord(3, 3), chunk_size: Coord(4, 4), padding: Coord(1, 1) }, true);
    use_conf(GameConf { chunk_count: Coord(2, 3), chunk_size: Coord(4, 4), padding: Coord(1, 1) }, false);
    use_conf(GameConf { chunk_count: Coord(3, 3), chunk_size: Coord(0, 4), padding: Coord(1, 1) }, false);
    use_conf(GameConf { chunk_count: Coord(isize::MAX, 1), chunk_size: Coord(isize::MAX, 1), padding: Coord(0, 0) }, false);
}

fn use_conf(conf: GameConf, ok: bool) {
    assert_eq!(are_world::cosmos::conf_usable(&conf), ok);
    if ok {
        let c = Cosmos::<Bio>::new(&conf);
        assert_eq!(c.plate.blocks.len() as isize, conf.chunk_count.0 * conf.chunk_size.0 * conf.chunk_count.1 * conf.chunk_size.1);
    }
}

#[test]
fn sowing_plants_only_grounds() {
    let mut c = world();
    c.properties.tick = 7;
    let w = put(&mut c, area(1, 1, 1, 1), Bio::new(Arc::new(species(1, 0)), 5));
    let mut rng = StdRng::seed_from_u64(3);
    are_world::gen::gen_structures(&mut c, &mut rng);
    let mut plants = 0;
    for b in c.plate.blocks.iter() {
        match &b.ground.item {
            are_world::gnd::Item::Plant(p) => {
                assert!(p.kind < 2);
                assert_eq!(p.birthday, 7);
                plants += 1;
            }
            are_world::gnd::Item::Air => {}
        }
    }
    // 144 cells, each sown with a chance of about one in five
    assert!(plants > 0 && plants < 144);
    assert_eq!(c.mob_on(Coord(1, 1)), Some(w.slot));
    assert_eq!(c.mobs.len(), 1);
}

#[test]
fn eats_only_above_the_threshold() {
    let sp = species(1, 0);
    let at = Coord(3, 4);
    assert!(matches!(sp.watching_choice(at, 10, None).action, BioAction::Nothing));
    let t = sp.watching_choice(at, 11, None);
    assert!(matches!(t.action, BioAction::Eat));
    assert_eq!(t.target, Some(area(3, 3, 4, 4)));
}

#[test]
fn energy_ledger_follows_orders() {
    let mut c = world();
    let sp = Arc::new(species(1, 0));
    let g = gene(&["a"]);
    let w = put(&mut c, area(3, 3, 3, 3), Bio::new(sp.clone(), 50));
    let d = Deamon { bound: area(0, 10, 0, 10) };
    let mut stats = Stats::new();
    Bio::order(&mut c, &d, MobRefMut { slot: w.slot }, vec![Order::Attack { atk: ATK::Normal(1), attacker: None, threat: 1 }], &sp, &mut stats);
    assert_eq!(stats.bio_energy_store.total(&g), 0);
    Bio::order(&mut c, &d, MobRefMut { slot: w.slot }, vec![Order::MobMainTick], &sp, &mut stats);
    // regenerating one hit point costs 1, waking up costs 1
    assert_eq!(c.mobs[0].as_ref().unwrap().mob.energy, 48);
    assert_eq!(stats.bio_energy_store.total(&g), -2);
    let kill = vec![Order::Attack { atk: ATK::Normal(10), attacker: None, threat: 1 }, Order::MobMainTick];
    let r = Bio::order(&mut c, &d, MobRefMut { slot: w.slot }, kill, &sp, &mut stats);
    assert!(r.died);
    assert_eq!(stats.bio_energy_store.total(&g), -50);
    assert_eq!(stats.bio_energy_store.total(&gene(&["zz"])), 0);
}

#[test]
fn child_species_only_when_breeding() {
    let mut c = world();
    let sp = Arc::new(species(1, 0));
    let w = put(&mut c, area(5, 5, 5, 5), Bio::new(sp.clone(), 300));
    c.mobs[0].as_mut().unwrap().mob.age = 9;
    let b = &c.mobs[0].as_ref().unwrap().mob;
    assert!(b.will_breed(&vec![Order::MobMainTick]));
    assert!(!b.will_breed(&vec![]));
    // a child species too large for the plate: no child is born
    let mut big = species(1, 0);
    big.size = Coord(12, 0);
    let d = Deamon { bound: area(0, 11, 0, 11) };
    let r = Bio::order(&mut c, &d, MobRefMut { slot: w.slot }, vec![Order::MobMainTick], &Arc::new(big), &mut Stats::new());
    assert!(r.child.is_none());
    assert_eq!(c.mobs.len(), 1);
    // a child of the parent's species is born
    c.mobs[0].as_mut().unwrap().mob.age = 9;
    let r = Bio::order(&mut c, &d, MobRefMut { slot: w.slot }, vec![Order::MobMainTick], &sp, &mut Stats::new());
    assert!(r.child.is_some());
    assert_eq!(c.mobs.len(), 2);
}

#[test]
fn set_then_take_leaves_the_plate_as_it_was() {
    let mut c = world();
    let b = MobBox::new(_MobBlock::new(area(13, 14, 2, 2), Bio::new(Arc::new(species(1, 0)), 5))).unwrap();
    let w = match c.set(b) {
        Ok(w) => w,
        Err(_) => panic!("cell taken"),
    };
    assert_eq!(c.mob_on(Coord(1, 2)), Some(w.slot));
    let back = c.take(MobRefMut { slot: w.slot });
    assert!(!back.block.on_plate);
    assert_eq!(back.block.at, area(1, 2, 2, 2));
    assert_eq!(back.block.mob.energy, 5);
    for y in 0..12 {
        for x in 0..12 {
            assert_eq!(c.mob_on(Coord(x, y)), None);
        }
    }
}

#[test]
fn place_first_free_takes_the_first_free_try() {
    let mut c = world();
    let sp = Arc::new(species(1, 0));
    put(&mut c, area(3, 3, 3, 3), Bio::new(sp.clone(), 5));
    assert!(place_first_free(&mut c, Bio::new(sp.clone(), 5), &vec![]).is_none());
    assert!(place_first_free(&mut c, Bio::new(sp.clone(), 5), &vec![(3, 3)]).is_none());
    assert_eq!(c.mobs.len(), 1);
    let w = place_first_free(&mut c, Bio::new(sp.clone(), 7), &vec![(3, 3), (5, 6), (7, 7)]).unwrap();
    assert_eq!(w.slot, 1);
    assert_eq!(c.mob_on(Coord(5, 6)), Some(1));
    assert_eq!(c.mob_on(Coord(7, 7)), None);
    assert_eq!(c.mobs[1].as_ref().unwrap().at, area(5, 5, 6, 6));
    assert_eq!(c.mobs[1].as_ref().unwrap().mob.energy, 7);
}

#[test]
fn place_first_free_wraps_a_wide_creature_round_the_edge() {
    let mut c = world();
    let mut wide = species(1, 0);
    wide.size = Coord(2, 0);
    let w = place_first_free(&mut c, Bio::new(Arc::new(wide), 5), &vec![(11, 4)]).unwrap();
    assert_eq!(c.mob_on(Coord(11, 4)), Some(w.slot));
    assert_eq!(c.mob_on(Coord(0, 4)), Some(w.slot));
    assert_eq!(c.mob_on(Coord(1, 4)), Some(w.slot));
    assert_eq!(c.mob_on(Coord(2, 4)), None);
    assert_eq!(c.mobs[w.slot].as_ref().unwrap().at, area(11, 13, 4, 4));
}

fn plant_of(g: &are_world::gnd::Ground) -> Option<(u8, u64)> {
    match &g.item {
        are_world::gnd::Item::Plant(p) => Some((p.kind, p.birthday)),
        are_world::gnd::Item::Air => None,
    }
}

#[test]
fn sow_cell_plants_the_first_class_drawn() {
    let env = are_world::gnd::Environment { wet: 3, altitude: 4 };
    let mut g = are_world::gnd::Ground { item: are_world::gnd::Item::Air, env };
    sow_cell(&mut g, 7, &vec![false, true]);
    assert_eq!(plant_of(&g), Some((1, 7)));
    assert_eq!(g.env.wet, 3);
    assert_eq!(g.env.altitude, 4);
    sow_cell(&mut g, 9, &vec![true, true]);
    assert_eq!(plant_of(&g), Some((0, 9)));
}

#[test]
fn sow_cell_without_a_draw_keeps_the_ground() {
    let mut g = are_world::gnd::Ground { item: are_world::gnd::Item::Air, env: are_world::gnd::Environment { wet: 0, altitude: 0 } };
    sow_cell(&mut g, 7, &vec![]);
    assert_eq!(plant_of(&g), None);
    sow_cell(&mut g, 7, &vec![false, false]);
    assert_eq!(plant_of(&g), None);
    // classes beyond the known ones are never planted
    sow_cell(&mut g, 7, &vec![false, false, true]);
    assert_eq!(plant_of(&g), None);
    g.item = are_world::gnd::Item::Plant(are_world::gnd::plant::Plant { kind: 1, birthday: 2 });
    sow_cell(&mut g, 7, &vec![false, false]);
    assert_eq!(plant_of(&g), Some((1, 2)));
}

#[test]
fn gen_structures_only_sows_known_plants_born_now() {
    let mut c = world();
    c.properties.tick = 4;
    let sp = Arc::new(species(1, 0));
    put(&mut c, area(3, 3, 3, 3), Bio::new(sp, 5));
    let mut rng = StdRng::seed_from_u64(11);
    gen_structures(&mut c, &mut rng);
    assert_eq!(c.mobs.len(), 1);
    assert_eq!(c.mob_on(Coord(3, 3)), Some(0));
    let mut planted = 0;
    for b in c.plate.blocks.iter() {
        if let Some((kind, birthday)) = plant_of(&b.ground) {
            assert!(kind < 2);
            assert_eq!(birthday, 4);
            planted += 1;
        }
    }
    assert!(planted <= 144);
}

#[test]
fn snapshot_lists_a_new_species() {
    let mut pool = SpeciesPool::new();
    let a = pool.new_species(gene(&["a"]), |g: &Gene| species_of(g, 1, 0));
    let first = pool.snapshot();
    let c = pool.new_species(gene(&["c"]), |g: &Gene| species_of(g, 3, 0));
    let second = pool.snapshot();
    assert!(!Arc::ptr_eq(&first, &second));
    assert_eq!(first.len(), 1);
    assert_eq!(second.len(), 2);
    assert!(Arc::ptr_eq(&second[0].1, &a));
    assert!(Arc::ptr_eq(&second[1].1, &c));
    assert_eq!(second[1].0.acids, vec!["c".to_string()]);
    assert!(Arc::ptr_eq(&second, &pool.snapshot()));
}

#[test]
fn deliver_messages_wakes_each_listener_in_turn() {
    let mut c = world();
    let a = put(&mut c, area(1, 1, 1, 1), Bio::new(Arc::new(species(1, 0)), 50));
    let b = put(&mut c, area(8, 8, 8, 8), Bio::new(Arc::new(species(1, 0)), 50));
    let mut blind = species(1, 0);
    blind.watch_period = 0;
    let deaf = put(&mut c, area(5, 5, 5, 5), Bio::new(Arc::new(blind), 50));
    let mut rng = StdRng::seed_from_u64(5);
    let groups = vec![
        (b, vec![Msg::Wake]),
        (Weak { slot: 9 }, vec![Msg::Wake]),
        (deaf, vec![Msg::Wake]),
        (a, vec![]),
    ];
    let posts = deliver_messages(&mut c, &groups, &mut rng);
    assert_eq!(posts.len(), 2);
    assert!(matches!(posts[0], Post::Tell { to: Weak { slot: 1 }, msg: Msg::Wake, delay: 4 }));
    assert!(matches!(posts[1], Post::Order { to: Weak { slot: 1 }, order: Order::MobMainTick, delay: 0 }));
    assert_eq!(c.mobs[1].as_ref().unwrap().mob.target.target.action, BioAction::Stroll);
    assert_eq!(c.mobs[0].as_ref().unwrap().mob.target.target.action, BioAction::Nothing);
    assert_eq!(c.mobs[2].as_ref().unwrap().mob.target.target.action, BioAction::Nothing);
    assert_eq!(c.mobs.len(), 3);
}
