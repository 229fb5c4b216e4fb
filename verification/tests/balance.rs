use std::collections::BTreeMap;

use crush::Crush;
use crush::LnTable;
use rand::Rng;

/// The table of -ln(i / 65536) scaled by 2^44, for i in [0, 65536).
fn ln_table() -> LnTable {
    let entries: Vec<u64> = (0..65536)
        .map(|i| (-((i as f64 / 65536.0).ln() * ((1u64 << 44) as f64)).round()) as u64)
        .collect();
    LnTable::new(entries).unwrap()
}

/// Generate a 9*9*9*10 cluster map.
fn gen_test_map() -> Crush {
    let mut crush = Crush::default();
    for i in 0..9 {
        for j in 0..9 {
            for k in 0..9 {
                for l in 0..10 {
                    let path = path_from_nums(i, j, k, l);
                    crush.add_weight(&path, 1);
                }
            }
        }
    }
    crush
}

fn path_from_nums(i: usize, j: usize, k: usize, l: usize) -> String {
    let row = i;
    let rack = row * 9 + j;
    let host = rack * 9 + k;
    let osd = host * 9 + l;
    format!("row.{row}/rack.{rack}/host.{host}/osd.{osd}")
}

#[test]
fn basic_balance() {
    let table = ln_table();
    let crush = gen_test_map();
    let mut count = BTreeMap::<String, u32>::new();
    let n = 1000000;
    for i in 0..n {
        let path = crush.locate(&table, i).unwrap();
        *count.entry(path).or_default() += 1;
    }
    let avg = n / (9 * 9 * 9 * 10);
    for (name, count) in count {
        let range = avg / 2..avg * 2;
        assert!(
            range.contains(&count),
            "path {name:?} count {count} out of range {range:?}"
        );
    }
}

/// test distribute on insert
#[test]
fn move_factor_add() {
    let table = ln_table();
    let mut crush = gen_test_map();
    let crush0 = crush.clone();
    let mut rng = rand::thread_rng();

    // random choose 10 OSDs, add weight to them
    for _ in 0..10 {
        let i = rng.gen_range(0..9);
        let j = rng.gen_range(0..9);
        let k = rng.gen_range(0..9);
        let l = rng.gen_range(0..10);
        let path = path_from_nums(i, j, k, l);
        let weight = rng.gen_range(1..5);
        crush.add_weight(&path, weight as i64);
    }

    let n = 1000000;
    let move_count = (0..n)
        .filter(|&i| crush0.locate(&table, i).unwrap() != crush.locate(&table, i).unwrap())
        .count();
    let shift_weight = crush.total_weight() - crush0.total_weight();
    let move_fator =
        (move_count as f32) / (n as f32 / (crush0.total_weight() / shift_weight) as f32);
    assert!(move_fator < 4.0, "move factor {move_fator} should < 4");
}

/// test distribute on remove
#[test]
fn move_factor_remove() {
    let table = ln_table();
    let mut crush = gen_test_map();
    let crush0 = crush.clone();
    let mut rng = rand::thread_rng();

    // shut down around 90 osds
    let mut shift_weight = 0;
    for _ in 0..90 {
        let i = rng.gen_range(0..9);
        let j = rng.gen_range(0..9);
        let k = rng.gen_range(0..9);
        let l = rng.gen_range(0..10);
        let path = path_from_nums(i, j, k, l);
        if !crush.get_inout(&path).unwrap() {
            crush.set_inout(&path, true).unwrap();
            shift_weight += crush.get_weight(&path).unwrap();
        }
    }

    let n = 1000000;
    let move_count = (0..n)
        .filter(|&i| crush0.locate(&table, i).unwrap() != crush.locate(&table, i).unwrap())
        .count();
    let move_fator =
        (move_count as f32) / (n as f32 / (crush0.total_weight() / shift_weight) as f32);
    assert!(move_fator < 1.5, "move factor {move_fator} should < 1.5");
}
