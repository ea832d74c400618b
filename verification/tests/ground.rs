use are_world::conf::{Plant as PlantConf, PlantRules};
use are_world::element::{Body, Element, FireStep, IS_FIRE};
use are_world::gnd::crop::{Ground as CropGround, Kind, Order, Plant};
use are_world::gnd::plant::Plant as AgePlant;
use are_world::gnd::prop::detail;
use are_world::gnd::{Environment, Ground, Item};
use are_world::grids::Coord;
use are_world::messages::Message;
use are_world::observe::pic::color_of;

fn rules() -> PlantRules {
    PlantRules {
        corpse_rot: 4,
        grass: PlantConf { grow: 3, sow_weight: 1, fruit_cost: 5, fruit_when: 10 },
        tree: PlantConf { grow: 1, sow_weight: 2, fruit_cost: 20, fruit_when: 50 },
    }
}

#[test]
fn element_counts_lights() {
    let mut e = Element::new();
    assert!(e.light());
    assert!(!e.light());
    assert_eq!(e.get_raw(), 2);
    assert!(!e.is_burning());
    assert_eq!(e.get_name(), "");
    e.set_raw(7);
    assert_eq!(e.get_raw(), 7);
}

#[test]
fn element_burns() {
    let mut e = Element::new();
    assert!(e.burn());
    assert!(e.is_burning());
    assert_eq!(e.get_name(), "fire");
    assert!(!e.burn());
    assert!(!e.hear(Message::Ignite));
    assert!(e.hear(Message::Light));
    assert_eq!(e.get_raw(), IS_FIRE | 1);
}

#[test]
fn fire_tick_follows_life_rules() {
    // three lit neighbours set a cell on fire
    let mut e = Element::new();
    e.set_raw(3);
    assert_eq!(e.fire_tick(), FireStep { spread: false, wake: true });
    assert_eq!(e.get_raw(), IS_FIRE);
    // a burning cell with two neighbours (and its own signal) keeps burning
    e.set_raw(IS_FIRE | 3);
    assert_eq!(e.fire_tick(), FireStep { spread: true, wake: false });
    assert_eq!(e.get_raw(), IS_FIRE);
    // a burning cell with one neighbour goes out
    e.set_raw(IS_FIRE | 2);
    assert_eq!(e.fire_tick(), FireStep { spread: true, wake: false });
    assert_eq!(e.get_raw(), 0);
    // a cold cell with two neighbours stays cold
    e.set_raw(2);
    assert_eq!(e.fire_tick(), FireStep { spread: false, wake: false });
    assert_eq!(e.get_raw(), 0);
}

#[test]
fn fire_tick_waits() {
    assert_eq!(Element::this_fire_tick(2, 3), 0);
    assert_eq!(Element::this_fire_tick(4, 8), 3);
    assert_eq!(Element::next_fire_tick(4, 8), 11);
}

#[test]
fn body_names_its_fire() {
    let mut b = Body::new();
    b.element.set_raw(3);
    let step = b.act();
    assert!(step.wake);
    assert_eq!(b.name, "fire");
    b.element.set_raw(IS_FIRE | 1);
    b.act();
    assert_eq!(b.name, "");
}

#[test]
fn crop_kinds() {
    let r = rules();
    assert_eq!(Kind::Grass.map(&r), Some(r.grass));
    assert_eq!(Kind::Corpse.map(&r), None);
    assert_eq!(Kind::Tree.as_str(), "tree");
    assert_eq!(Kind::Empty.as_str(), "none");
    assert_eq!(Kind::sown(&r, 0), Kind::Grass);
    assert_eq!(Kind::sown(&r, 1), Kind::Tree);
    assert_eq!(Kind::sown(&r, 2), Kind::Tree);
}

#[test]
fn crop_grows_fruits_and_rots() {
    let r = rules();
    let mut p = Plant::new(Kind::Grass);
    assert!(p.aging(Coord(5, 5), &r).is_empty());
    assert_eq!(p.age, 3);
    p.age = 10;
    let orders = p.aging(Coord(5, 5), &r);
    assert_eq!(p.age, 5);
    assert_eq!(
        orders,
        vec![
            (Coord(4, 5), Order::PlantSowing(Kind::Grass)),
            (Coord(5, 4), Order::PlantSowing(Kind::Grass)),
            (Coord(5, 6), Order::PlantSowing(Kind::Grass)),
            (Coord(6, 5), Order::PlantSowing(Kind::Grass)),
        ]
    );
    let mut c = Plant::new_corpse(6);
    assert!(c.aging(Coord(0, 0), &r).is_empty());
    assert_eq!(c.age, 2);
    c.aging(Coord(0, 0), &r);
    assert_eq!(c.age, 0);
}

#[test]
fn crop_mow_and_corpses() {
    let mut p = Plant::new(Kind::Tree);
    p.age = 30;
    assert_eq!(p.mow(12), 12);
    assert_eq!(p.age, 18);
    assert_eq!(p.mow(100), 18);
    assert_eq!(p.age, 0);
    p.age = 30;
    assert_eq!(p.mow_threshold(12, 25), 5);
    assert_eq!(p.age, 25);
    assert_eq!(p.mow_threshold(12, 40), 0);
    assert_eq!(p.age, 25);
    p.add_corpse(10);
    assert_eq!(p.kind, Kind::Tree);
    assert_eq!(p.age, 35);
    p.add_corpse(50);
    assert_eq!(p.kind, Kind::Corpse);
    assert_eq!(p.age, 85);
}

#[test]
fn crop_ground_orders_and_name() {
    let r = rules();
    let mut g = CropGround { plant: Plant::new(Kind::Empty) };
    assert_eq!(g.name(), "");
    let out = g.order(Coord(1, 1), &r, vec![Order::PlantSowing(Kind::Grass), Order::PlantAging, Order::PlantAging]);
    assert!(out.is_empty());
    assert_eq!(g.plant, Plant { kind: Kind::Grass, age: 6 });
    assert_eq!(g.name(), "Gr06");
    // sowing a taken cell changes nothing
    g.order(Coord(1, 1), &r, vec![Order::PlantSowing(Kind::Tree), Order::PlantMow(2)]);
    assert_eq!(g.plant, Plant { kind: Kind::Grass, age: 4 });
    let mut t = CropGround { plant: Plant { kind: Kind::Tree, age: 7 } };
    assert_eq!(t.name(), "T007");
    t.plant.age = 1234;
    assert_eq!(t.name(), "T1234");
}

#[test]
fn plant_classes() {
    let g = detail(0);
    assert_eq!((g.name, g.aging_factor, g.max_energy), ("grass", 10, 10000));
    let t = detail(1);
    assert_eq!((t.name, t.aging_factor, t.max_energy), ("tree", 20, 50000));
    let env = Environment { wet: 0, altitude: 0 };
    assert_eq!(g.energy(&0, &100, &env), 1000);
    assert_eq!(g.energy(&0, &5000, &env), 10000);
    assert_eq!(AgePlant::new(1, 3).to_string(), "tree");
}

#[test]
fn ground_energy_and_mowing() {
    let mut g = Ground { item: Item::Plant(AgePlant::new(0, 0)), env: Environment { wet: 0, altitude: 0 } };
    assert_eq!(g.energy(100), 1000);
    assert_eq!(g.mow(100, 300), 300);
    assert_eq!(g.energy(100), 700);
    // taking stops at the threshold
    assert_eq!(g.mow_threshold(100, 300, 650), 50);
    assert_eq!(g.energy(100), 650);
    // a plant at or under the threshold is left alone
    assert_eq!(g.mow_threshold(100, 10, 700), 0);
    assert_eq!(g.energy(100), 650);
    // energy is taken in whole ticks of growth
    let mut h = Ground { item: Item::Plant(AgePlant::new(0, 0)), env: Environment { wet: 0, altitude: 0 } };
    assert_eq!(h.mow(9, 15), 10);
    assert_eq!(h.energy(9), 80);
    let mut air = Ground::new();
    assert_eq!(air.mow(5, 10), 0);
    assert_eq!(air.to_string(), "air");
    assert_eq!(g.to_string(), "grass");
}

#[test]
fn picture_colors() {
    let air = Ground { item: Item::Air, env: Environment { wet: 0, altitude: 0 } };
    assert_eq!(color_of(&air, false), (0, 0, 0));
    assert_eq!(color_of(&air, true), (255, 0, 255));
    let grass = Ground { item: Item::Plant(AgePlant { kind: 0, birthday: 0 }), env: Environment { wet: 0, altitude: 0 } };
    assert_eq!(color_of(&grass, false), (63, 255, 63));
    let tree = Ground { item: Item::Plant(AgePlant { kind: 1, birthday: 0 }), env: Environment { wet: 0, altitude: 0 } };
    assert_eq!(color_of(&tree, false), (31, 127, 31));
    let other = Ground { item: Item::Plant(AgePlant { kind: 7, birthday: 0 }), env: Environment { wet: 0, altitude: 0 } };
    assert_eq!(color_of(&other, false), (0, 255, 0));
}
