use std::collections::BTreeSet;
use std::hash::Hash;
use std::hash::Hasher;

use ahash::AHasher;
use crush::Crush;
use crush::CrushError;
use crush::LnTable;

fn log_entries() -> Vec<u64> {
    (0..65536)
        .map(|i| (-((i as f64 / 65536.0).ln() * ((1u64 << 44) as f64)).round()) as u64)
        .collect()
}

fn log_table() -> LnTable {
    LnTable::new(log_entries()).unwrap()
}

/// Four racks of five hosts of three disks, each disk of weight 1.
fn small_map() -> Crush {
    let mut crush = Crush::new();
    for rack in 0..4 {
        for host in 0..5 {
            for disk in 0..3 {
                crush.add_weight(&format!("rack{rack}/host{host}/disk{disk}"), 1);
            }
        }
    }
    crush
}

fn digest(name: &str, pgid: u32, attempt: u32) -> u64 {
    let mut hasher = AHasher::default();
    name.hash(&mut hasher);
    pgid.hash(&mut hasher);
    attempt.hash(&mut hasher);
    hasher.finish()
}

#[test]
fn the_table_of_logarithms() {
    let entries = log_entries();
    assert_eq!(entries.len(), 65536);
    assert_eq!(entries[0], u64::MAX);
    assert_eq!(entries[32768], 12193974156573);
    assert_eq!(entries[65535], 268437504);
    for i in 1..65536 {
        assert!(entries[i - 1] > entries[i]);
    }
}

#[test]
fn a_selection_is_always_the_same() {
    let table = log_table();
    let crush = small_map();
    let copy = crush.clone();
    for pgid in 0..500 {
        let first = crush.select(&table, pgid, 3);
        assert!(first.is_ok());
        assert_eq!(crush.select(&table, pgid, 3), first);
        assert_eq!(copy.select(&table, pgid, 3), first);
    }
}

#[test]
fn locating_is_selecting_one() {
    let table = log_table();
    let crush = small_map();
    for pgid in 0..500 {
        let path = crush.locate(&table, pgid).unwrap();
        assert_eq!(crush.select(&table, pgid, 1), Ok(vec![path]));
    }
}

#[test]
fn the_first_replica_is_where_the_group_is_located() {
    let table = log_table();
    let crush = small_map();
    for pgid in 0..500 {
        let path = crush.locate(&table, pgid).unwrap();
        let paths = crush.select(&table, pgid, 4).unwrap();
        assert_eq!(paths[0], path);
    }
}

#[test]
fn a_selection_names_leaves() {
    let table = log_table();
    let crush = small_map();
    for pgid in 0..500 {
        for path in crush.select(&table, pgid, 3).unwrap() {
            assert_eq!(path.split('/').count(), 3);
            assert_eq!(crush.get_weight(&path), Ok(1));
            assert_eq!(crush.get_inout(&path), Ok(false));
        }
    }
}

#[test]
fn no_leaf_is_selected_twice() {
    let table = log_table();
    let crush = small_map();
    for pgid in 0..300 {
        for num in [2u32, 5, 20, 60] {
            let paths = crush.select(&table, pgid, num).unwrap();
            assert_eq!(paths.len(), num as usize);
            let distinct: BTreeSet<&String> = paths.iter().collect();
            assert_eq!(distinct.len(), paths.len());
        }
    }
}

#[test]
fn every_leaf_can_be_selected_at_once() {
    let table = log_table();
    let crush = small_map();
    let paths = crush.select(&table, 7, 60).unwrap();
    let distinct: BTreeSet<String> = paths.into_iter().collect();
    assert_eq!(distinct.len(), 60);
    assert!(distinct.contains("rack0/host0/disk0"));
    assert!(distinct.contains("rack3/host4/disk2"));
}

#[test]
fn nothing_is_selected_when_nothing_is_asked_for() {
    let table = log_table();
    assert_eq!(small_map().select(&table, 1, 0), Ok(Vec::new()));
    assert_eq!(Crush::new().select(&table, 1, 0), Ok(Vec::new()));
}

#[test]
fn what_is_out_of_service_is_not_selected() {
    let table = log_table();
    let mut crush = small_map();
    let mut out = BTreeSet::new();
    for rack in 0..4 {
        for host in 0..5 {
            let path = format!("rack{rack}/host{host}/disk{}", (rack + host) % 3);
            crush.set_inout(&path, true).unwrap();
            out.insert(path);
        }
    }
    for disk in 0..3 {
        let path = format!("rack2/host2/disk{disk}");
        crush.set_inout(&path, true).unwrap();
        out.insert(path);
    }
    for pgid in 0..2000 {
        for path in crush.select(&table, pgid, 3).unwrap() {
            assert!(!out.contains(&path), "{path} is out of service");
            assert_eq!(crush.get_inout(&path), Ok(false));
        }
    }
}

#[test]
fn the_last_leaf_in_service_is_found() {
    let table = log_table();
    let mut crush = small_map();
    for rack in 0..4 {
        for host in 0..5 {
            for disk in 0..3 {
                crush.set_inout(&format!("rack{rack}/host{host}/disk{disk}"), true).unwrap();
            }
        }
    }
    crush.set_inout("rack1/host3/disk2", false).unwrap();
    for pgid in 0..20 {
        assert_eq!(crush.locate(&table, pgid), Ok(String::from("rack1/host3/disk2")));
    }
}

#[test]
fn what_is_in_service_again_is_selected_again() {
    let table = log_table();
    let mut crush = small_map();
    let before: Vec<_> = (0..300).map(|pgid| crush.select(&table, pgid, 2)).collect();
    crush.set_inout("rack0/host0/disk0", true).unwrap();
    crush.set_inout("rack0/host0/disk0", false).unwrap();
    let after: Vec<_> = (0..300).map(|pgid| crush.select(&table, pgid, 2)).collect();
    assert_eq!(before, after);
}

#[test]
fn marking_an_inner_node_leaves_its_leaves_in_service() {
    let table = log_table();
    let mut crush = small_map();
    let before: Vec<_> = (0..300).map(|pgid| crush.locate(&table, pgid)).collect();
    crush.set_inout("rack0", true).unwrap();
    crush.set_inout("rack1/host1", true).unwrap();
    let after: Vec<_> = (0..300).map(|pgid| crush.locate(&table, pgid)).collect();
    assert_eq!(before, after);
}

#[test]
fn an_empty_map_has_no_place() {
    let table = log_table();
    let crush = Crush::new();
    assert_eq!(crush.select(&table, 1, 1), Err(CrushError::PlacementExhausted));
    assert_eq!(crush.locate(&table, 1), Err(CrushError::PlacementExhausted));
}

#[test]
fn more_replicas_than_leaves_have_no_place() {
    let table = log_table();
    let mut crush = Crush::new();
    crush.add_weight("host/a", 1);
    crush.add_weight("host/b", 1);
    assert!(crush.select(&table, 9, 2).is_ok());
    assert_eq!(crush.select(&table, 9, 3), Err(CrushError::PlacementExhausted));
    assert_eq!(small_map().select(&table, 9, 61), Err(CrushError::PlacementExhausted));
}

#[test]
fn a_map_all_out_of_service_has_no_place() {
    let table = log_table();
    let mut crush = Crush::new();
    crush.add_weight("host/a", 1);
    crush.add_weight("host/b", 1);
    crush.set_inout("host/a", true).unwrap();
    crush.set_inout("host/b", true).unwrap();
    assert_eq!(crush.locate(&table, 3), Err(CrushError::PlacementExhausted));
}

#[test]
fn a_node_whose_children_weigh_nothing_stops_the_draw() {
    let table = log_table();
    let mut crush = Crush::new();
    crush.add_weight("a", 0);
    crush.add_weight("b", 0);
    assert_eq!(crush.locate(&table, 3), Err(CrushError::ZeroWeightChild));
    assert_eq!(crush.select(&table, 3, 2), Err(CrushError::ZeroWeightChild));

    let mut below = Crush::new();
    below.add_weight("rack/host", 4);
    below.add_weight("rack/host/disk", 0);
    assert_eq!(below.locate(&table, 3), Err(CrushError::ZeroWeightChild));
}

#[test]
fn a_child_without_weight_is_never_drawn() {
    let table = log_table();
    let mut crush = Crush::new();
    crush.add_weight("a", 0);
    crush.add_weight("b", 1);
    crush.add_weight("c", 5);
    crush.add_weight("c", -5);
    for pgid in 0..500 {
        assert_eq!(crush.locate(&table, pgid), Ok(String::from("b")));
    }
}

#[test]
fn the_draw_is_the_shortest_straw_by_ahash() {
    let entries = log_entries();
    let table = log_table();
    let leaves = [("alpha", 1u64), ("bravo", 2), ("charlie", 3), ("delta", 1), ("echo", 7)];
    let mut crush = Crush::new();
    for (name, weight) in leaves {
        crush.add_weight(name, weight as i64);
    }
    let mut seen = BTreeSet::new();
    for pgid in 0..3000u32 {
        let mut best = "";
        let mut shortest = u64::MAX;
        for (name, weight) in leaves {
            let straw = entries[(digest(name, pgid, 0) & 65535) as usize] / weight;
            if straw < shortest {
                shortest = straw;
                best = name;
            }
        }
        assert_eq!(crush.locate(&table, pgid), Ok(String::from(best)));
        seen.insert(best);
    }
    assert_eq!(seen.len(), 5);
}

#[test]
fn a_walk_draws_once_at_every_level() {
    let entries = log_entries();
    let table = log_table();
    let mut crush = Crush::new();
    let mut weights = std::collections::BTreeMap::<String, u64>::new();
    for rack in 0..4u64 {
        for host in 0..5u64 {
            for disk in 0..3u64 {
                let weight = 1 + (rack * 7 + host * 3 + disk) % 5;
                crush.add_weight(&format!("rack{rack}/host{host}/disk{disk}"), weight as i64);
                *weights.entry(format!("rack{rack}")).or_default() += weight;
                *weights.entry(format!("rack{rack}/host{host}")).or_default() += weight;
                *weights.entry(format!("rack{rack}/host{host}/disk{disk}")).or_default() += weight;
            }
        }
    }
    let pick = |above: &str, names: Vec<String>, pgid: u32| {
        let mut best = String::new();
        let mut shortest = u64::MAX;
        for name in names {
            let path = format!("{above}{name}");
            let straw = entries[(digest(&name, pgid, 0) & 65535) as usize] / weights[&path];
            if straw < shortest {
                shortest = straw;
                best = path;
            }
        }
        best
    };
    for pgid in 0..3000u32 {
        let rack = pick("", (0..4).map(|i| format!("rack{i}")).collect(), pgid);
        let host = pick(&format!("{rack}/"), (0..5).map(|i| format!("host{i}")).collect(), pgid);
        let disk = pick(&format!("{host}/"), (0..3).map(|i| format!("disk{i}")).collect(), pgid);
        assert_eq!(crush.locate(&table, pgid), Ok(disk));
    }
}

#[test]
fn a_rejected_leaf_is_drawn_again_under_the_next_attempt() {
    let entries = log_entries();
    let table = log_table();
    let names = ["alpha", "bravo", "charlie", "delta"];
    let mut crush = Crush::new();
    for name in names {
        crush.add_weight(name, 1);
    }
    let pick = |pgid: u32, attempt: u32| {
        let mut best = "";
        let mut shortest = u64::MAX;
        for name in names {
            let straw = entries[(digest(name, pgid, attempt) & 65535) as usize];
            if straw < shortest {
                shortest = straw;
                best = name;
            }
        }
        best
    };
    for pgid in 0..1000u32 {
        // The second replica starts at attempt 1, and every rejection adds one.
        let first = pick(pgid, 0);
        let mut attempt = 1;
        while pick(pgid, attempt) == first {
            attempt += 1;
        }
        let second = pick(pgid, attempt);
        assert_eq!(
            crush.select(&table, pgid, 2),
            Ok(vec![String::from(first), String::from(second)])
        );
    }
}

#[test]
fn a_leaf_without_a_name_has_a_path() {
    let table = log_table();
    let mut crush = Crush::new();
    crush.add_weight("rack//", 1);
    assert_eq!(crush.get_weight("rack//"), Ok(1));
    assert_eq!(crush.locate(&table, 5), Ok(String::from("rack//")));
    let mut top = Crush::new();
    top.add_weight("/", 1);
    assert_eq!(top.locate(&table, 5), Ok(String::from("/")));
    assert_eq!(top.get_weight("/"), Ok(1));
}

#[test]
fn a_heavier_leaf_takes_and_does_not_give() {
    let table = log_table();
    let mut crush = Crush::new();
    for name in ["alpha", "bravo", "charlie", "delta", "echo"] {
        crush.add_weight(name, 2);
    }
    let before: Vec<String> = (0..3000).map(|pgid| crush.locate(&table, pgid).unwrap()).collect();
    crush.add_weight("charlie", 3);
    let mut moved = 0;
    for pgid in 0..3000u32 {
        let after = crush.locate(&table, pgid).unwrap();
        if after != before[pgid as usize] {
            assert_eq!(after, "charlie");
            moved += 1;
        }
    }
    assert!(moved > 0);
}

#[test]
fn weight_moves_placements_towards_it() {
    let table = log_table();
    let mut crush = small_map();
    let before: Vec<String> = (0..5000).map(|pgid| crush.locate(&table, pgid).unwrap()).collect();
    let target = ["rack1", "host2", "disk0"];
    crush.add_weight("rack1/host2/disk0", 4);
    let shared = |path: &str| {
        path.split('/').zip(target.iter()).take_while(|(name, wanted)| name == *wanted).count()
    };
    let mut moved = [0, 0, 0, 0];
    for pgid in 0..5000u32 {
        let was = &before[pgid as usize];
        let now = crush.locate(&table, pgid).unwrap();
        if &now != was {
            assert!(shared(&now) > shared(was), "{was} moved to {now}");
            moved[shared(&now)] += 1;
        }
    }
    assert_eq!(moved[0], 0);
    assert!(moved[1] > 0);
    assert!(moved[2] > 0);
    assert!(moved[3] > 0);
}

#[test]
fn taking_a_leaf_out_moves_only_what_was_on_it() {
    let table = log_table();
    let mut crush = small_map();
    let before: Vec<Vec<String>> =
        (0..2000).map(|pgid| crush.select(&table, pgid, 2).unwrap()).collect();
    let gone = [String::from("rack1/host2/disk0"), String::from("rack3/host0/disk1")];
    for path in gone.iter() {
        crush.set_inout(path, true).unwrap();
    }
    let mut moved = 0;
    for pgid in 0..2000u32 {
        let was = &before[pgid as usize];
        let now = crush.select(&table, pgid, 2).unwrap();
        if was.iter().any(|path| gone.contains(path)) {
            assert_ne!(&now, was);
            moved += 1;
        } else {
            assert_eq!(&now, was);
        }
    }
    assert!(moved > 0);
}
