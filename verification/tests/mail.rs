use std::sync::Arc;

use are_world::conf::GameConf;
use are_world::cosmos::{Cosmos, MobBox, _MobBlock};
use are_world::grids::{Coord, Interval};
use are_world::mail::{Orderer, PostOffice, Teller};
use are_world::mob::atk::ATK;
use are_world::mob::bio::Bio;
use are_world::mob::gene::Gene;
use are_world::mob::letters::{Msg, Order, Post};
use are_world::mob::species::Species;
use are_world::refs::Weak;
use are_world::tick::plan_orders;

fn area(x0: isize, x1: isize, y0: isize, y1: isize) -> Coord<Interval<isize>> {
    Coord(Interval { from: x0, to: x1 }, Interval { from: y0, to: y1 })
}

fn species() -> Species {
    Species {
        gene: Gene { acids: vec!["a".to_string()] },
        name: "a".to_string(),
        wake_period: 4,
        wake_energy_consume: 1,
        energy_cost: 1,
        spawn_loss: 1,
        spawn_init_energy: 50,
        incubation_delay: 3,
        size: Coord(0, 0),
        watch_period: 1,
        watch_range: 2,
        move_period: 1,
        move_cost: 1,
        eat_threshold: 10,
        eat_takes: 5,
        max_hp: 10,
        threat: 1,
        atk: ATK::Normal(3),
        attack_cost: 1,
        flee_threshold: 100,
        fight_back_threshold: 0,
        attack_range: Coord(1, 1),
        chase_threshold: 0,
        regeneration: 1,
        regeneration_cost: 1,
    }
}

fn put(c: &mut Cosmos<Bio>, at: Coord<Interval<isize>>) -> Weak {
    let b = MobBox::new(_MobBlock::new(at, Bio::new(Arc::new(species()), 5))).unwrap();
    match c.set(b) {
        Ok(w) => w,
        Err(_) => panic!("cell taken"),
    }
}

fn world() -> Cosmos<Bio> {
    Cosmos::new(&GameConf { chunk_count: Coord(3, 3), chunk_size: Coord(4, 4), padding: Coord(1, 1) })
}

fn is_main_tick(o: &Order) -> bool {
    matches!(o, Order::MobMainTick)
}

#[test]
fn post_office_delivers_letters_when_due() {
    let w = world();
    let (a, b, c) = (Weak::from_slot(0), Weak::from_slot(1), Weak::from_slot(2));
    let mut office = PostOffice::new(5);
    office.send(&vec![
        Post::Tell { to: a, msg: Msg::Wake, delay: 0 },
        Post::Order { to: b, order: Order::MobMainTick, delay: 2 },
        Post::Tell { to: c, msg: Msg::Wake, delay: 1 },
    ]);
    assert_eq!(office.messages.len(), 2);
    assert_eq!(office.orders.len(), 1);
    assert_eq!(office.pop_messages(&w), vec![(a, Msg::Wake)]);
    assert!(office.pop_orders(&w).is_empty());
    office.tick();
    assert_eq!(office.pop_messages(&w), vec![(c, Msg::Wake)]);
    assert!(office.pop_orders(&w).is_empty());
    office.tick();
    assert!(office.pop_messages(&w).is_empty());
    let orders = office.pop_orders(&w);
    assert_eq!(orders.len(), 1);
    assert_eq!(orders[0].0, b);
    assert!(is_main_tick(&orders[0].1));
    assert!(office.orders.is_empty());
}

#[test]
fn post_office_keeps_the_sending_order() {
    let w = world();
    let mut office = PostOffice::new(0);
    office.tell(Weak::from_slot(3), Msg::Wake, 1);
    office.tell(Weak::from_slot(1), Msg::Wake, 0);
    office.order(Weak::from_slot(2), Order::MobMainTick, 0);
    office.tell(Weak::from_slot(2), Msg::Wake, 0);
    assert_eq!(office.pop_messages(&w), vec![(Weak::from_slot(1), Msg::Wake), (Weak::from_slot(2), Msg::Wake)]);
    assert_eq!(office.messages, vec![(1, Weak::from_slot(3), Msg::Wake)]);
    assert_eq!(office.orders.len(), 1);
}

#[test]
fn post_office_caps_due_tick() {
    let w = world();
    let mut office = PostOffice::new(u64::MAX - 1);
    office.tell(Weak::from_slot(0), Msg::Wake, 10);
    assert_eq!(office.messages[0].0, u64::MAX);
    assert!(office.pop_messages(&w).is_empty());
}

#[test]
fn plan_orders_groups_by_chunk_and_batch() {
    let mut c: Cosmos<Bio> =
        Cosmos::new(&GameConf { chunk_count: Coord(3, 3), chunk_size: Coord(4, 4), padding: Coord(1, 1) });
    let w1 = put(&mut c, area(5, 5, 5, 5));
    let w2 = put(&mut c, area(9, 9, 5, 5));
    let gone = Weak::from_slot(7);
    let due: Vec<(Weak, u32)> = vec![(w1, 10), (w2, 20), (gone, 30), (w1, 11)];
    let plan = plan_orders(&c, &due);
    assert_eq!(plan.len(), 9);
    assert_eq!(plan[0].len(), 1);
    assert_eq!(plan[0][0].0, area(0, 11, 0, 11));
    assert_eq!(plan[0][0].1, vec![(w1, vec![10, 11])]);
    assert_eq!(plan[3].len(), 1);
    assert_eq!(plan[3][0].0, area(4, 15, 0, 11));
    assert_eq!(plan[3][0].1, vec![(w2, vec![20])]);
    for (i, batch) in plan.iter().enumerate() {
        if i != 0 && i != 3 {
            assert!(batch.is_empty());
        }
    }
}

#[test]
fn letters_to_cells_reach_the_creature_there() {
    let mut w = world();
    let on = put(&mut w, area(2, 3, 2, 2));
    let mut office = PostOffice::new(0);
    office.tell(Weak::from_slot(5), Msg::Wake, 0);
    office.tell(Coord(15, 14), Msg::Wake, 0);
    office.tell(Coord(1, 1), Msg::Wake, 0);
    office.order(Coord(3, 2), Order::MobMainTick, 1);
    assert_eq!(office.pop_messages(&w), vec![(Weak::from_slot(5), Msg::Wake), (on, Msg::Wake)]);
    assert!(office.cell_messages.is_empty());
    assert!(office.pop_orders(&w).is_empty());
    office.tick();
    let orders = office.pop_orders(&w);
    assert_eq!(orders.len(), 1);
    assert_eq!(orders[0].0, on);
}
