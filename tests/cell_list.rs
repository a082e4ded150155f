use vicsek::cell_list::CellList;

const TORUS: u64 = 1 << 32;

fn centre(x: u64, y: u64, l: u64) -> [u32; 2] {
    [((2 * x + 1) * TORUS / (2 * l)) as u32, ((2 * y + 1) * TORUS / (2 * l)) as u32]
}

fn one_per_cell(l: usize) -> CellList {
    let mut cl = CellList::new(l);
    for x in 0..l {
        for y in 0..l {
            cl.add(centre(x as u64, y as u64, l as u64), x * l + y);
        }
    }
    cl
}

fn sorted(mut v: Vec<usize>) -> Vec<usize> {
    v.sort();
    v
}

#[test]
fn ring_zero_is_own_cell() {
    let cl = one_per_cell(4);
    assert_eq!(cl.adjacent_level(centre(2, 1, 4), 0), vec![9]);
}

#[test]
fn ring_one_wraps_at_grid_corner() {
    let cl = one_per_cell(4);
    let ring = sorted(cl.adjacent_level(centre(0, 0, 4), 1));
    assert_eq!(ring, vec![1, 3, 4, 5, 7, 12, 13, 15]);
}

#[test]
fn ring_one_inside_grid() {
    let cl = one_per_cell(4);
    let ring = sorted(cl.adjacent_level(centre(1, 1, 4), 1));
    assert_eq!(ring, vec![0, 1, 2, 4, 6, 8, 9, 10]);
}

#[test]
fn rings_partition_the_grid() {
    let cl = one_per_cell(4);
    let r2 = sorted(cl.adjacent_level(centre(0, 0, 4), 2));
    assert_eq!(r2, vec![2, 6, 8, 9, 10, 11, 14]);
    assert!(cl.adjacent_level(centre(0, 0, 4), 3).is_empty());
    let cl5 = one_per_cell(5);
    let mut all: Vec<usize> = Vec::new();
    for n in 0..4 {
        all.extend(cl5.adjacent_level(centre(4, 2, 5), n));
    }
    assert_eq!(sorted(all), (0..25).collect::<Vec<usize>>());
}

#[test]
fn every_index_found_once_after_rebuild() {
    let l = 5;
    let mut cl = CellList::new(l);
    let mut pos: Vec<[u32; 2]> = Vec::new();
    let mut s: u64 = 12345;
    for i in 0..37 {
        s = s.wrapping_mul(6364136223846793005).wrapping_add(1442695040888963407);
        let p = [(s >> 32) as u32, (s & 0xffff_ffff) as u32];
        pos.push(p);
        cl.add(p, i);
    }
    cl.clear();
    for (i, p) in pos.iter().enumerate() {
        cl.add(*p, i);
    }
    let mut all: Vec<usize> = Vec::new();
    for n in 0..=(l / 2) {
        all.extend(cl.adjacent_level(pos[0], n));
    }
    assert_eq!(sorted(all), (0..37).collect::<Vec<usize>>());
}

#[test]
fn add_is_idempotent_and_remove_takes_out() {
    let mut cl = CellList::new(3);
    let p = centre(1, 2, 3);
    cl.add(p, 4);
    cl.add(p, 4);
    assert_eq!(cl.adjacent_level(p, 0), vec![4]);
    cl.add(p, 6);
    cl.remove(p, 4);
    assert_eq!(cl.adjacent_level(p, 0), vec![6]);
    cl.clear();
    assert!(cl.adjacent_level(p, 0).is_empty());
    assert_eq!(cl.l(), 3);
}

#[test]
fn position_at_top_edge_falls_in_last_cell() {
    let mut cl = CellList::new(4);
    cl.add([u32::MAX, 0], 1);
    assert_eq!(cl.adjacent_level(centre(3, 0, 4), 0), vec![1]);
}

#[test]
fn distance_to_level_is_ceiling_plus_one() {
    let cl = CellList::new(8);
    assert_eq!(cl.distance_to_level(536_870_912), 2);
    assert_eq!(cl.distance_to_level(536_870_913), 3);
    assert_eq!(cl.distance_to_level(1), 2);
    assert_eq!(cl.distance_to_level(0), 1);
    let cl10 = CellList::new(10);
    assert_eq!(cl10.distance_to_level(214_748_365), 2);
}
