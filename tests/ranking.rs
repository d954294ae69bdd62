use pagerank::fixed::ONE;
use pagerank::matrix::{absorbent_node_vec, m_to_h, SMat};
use pagerank::rank::{
    dangling_rank, dangling_step, damped_rank, damped_step, plain_rank, plain_step, uniform,
};
use pagerank::text::{load, parse_header, parse_number, parse_row, render};
use pagerank::vectors::{ColVec, RowVec, Transpose};

const THREE: &str = "rows 3 columns 3\nrow 0: 1 2 -1\nrow 1: 2 -1\n";

fn values(r: &RowVec) -> Vec<u64> {
    (0..r.len()).map(|i| r.get(i)).collect()
}

fn col_values(c: &ColVec) -> Vec<u64> {
    (0..c.len()).map(|i| c.get(i)).collect()
}

fn total(r: &RowVec) -> u64 {
    values(r).iter().sum()
}

fn cells(h: &SMat, i: usize) -> Vec<(usize, u64)> {
    h.rows[i].elements.iter().map(|c| (c.column, c.value)).collect()
}

fn three_node() -> SMat {
    let mut h = load(THREE.as_bytes()).unwrap();
    m_to_h(&mut h);
    h
}

fn ring(n: usize) -> SMat {
    let mut h = SMat::new(n, n);
    for i in 0..n {
        h.add_edge(i, (i + 1) % n);
        h.add_edge(i, (i + 2) % n);
    }
    m_to_h(&mut h);
    h
}

#[test]
fn three_node_scenario() {
    let h = three_node();
    assert_eq!(h.m, 3);
    assert_eq!(h.n, 3);
    assert_eq!(cells(&h, 0), vec![(1, ONE / 2), (2, ONE / 2)]);
    assert_eq!(cells(&h, 1), vec![(2, ONE)]);
    assert_eq!(cells(&h, 2), vec![]);
    let abs = absorbent_node_vec(&h);
    assert_eq!(col_values(&abs), vec![0, 0, ONE]);
    let r = uniform(3, 3);
    assert_eq!(values(&r), vec![333_333_333; 3]);
    let d = abs.div(3);
    let next = dangling_step(&r, &h, &d);
    assert_eq!(values(&next), vec![111_111_110, 277_777_776, 611_111_109]);
    // one unit of weight is 1e-9: the loss is rounding only
    assert_eq!(total(&next), 999_999_995);
}

#[test]
fn normalized_rows_weigh_one() {
    let h = ring(7);
    for i in 0..7 {
        let w: u64 = cells(&h, i).iter().map(|c| c.1).sum();
        assert!(w <= ONE && w > ONE - 2);
    }
    let mut g = SMat::new(3, 3);
    g.add_edge(0, 0);
    g.add_edge(0, 1);
    g.add_edge(0, 2);
    m_to_h(&mut g);
    assert_eq!(cells(&g, 0), vec![(0, 333_333_333), (1, 333_333_333), (2, 333_333_333)]);
}

#[test]
fn absorbent_nodes_mark_empty_rows() {
    let mut h = SMat::new(4, 4);
    h.add_edge(1, 3);
    h.add_edge(3, 0);
    let abs = absorbent_node_vec(&h);
    assert_eq!(col_values(&abs), vec![ONE, 0, ONE, 0]);
    let empty = SMat::new(0, 0);
    assert_eq!(absorbent_node_vec(&empty).len(), 0);
}

#[test]
fn dangling_model_keeps_mass() {
    let h = three_node();
    let d = absorbent_node_vec(&h).div(3);
    let mut r = uniform(3, 3);
    let mut last = total(&r);
    for _ in 0..10 {
        r = dangling_step(&r, &h, &d);
        let now = total(&r);
        assert!(now <= last);
        // three cells and one dangling row of three: under 12 units lost
        assert!(now + 12 >= last);
        last = now;
    }
    let ran = dangling_rank(&h, 10);
    assert_eq!(values(&ran), values(&r));
}

#[test]
fn plain_model_loses_dangling_mass() {
    let h = three_node();
    let r = uniform(3, 3);
    let next = plain_step(&r, &h);
    assert_eq!(values(&next), vec![0, 166_666_666, 499_999_999]);
    assert!(total(&next) + 333_333_333 <= total(&r));
    let g = ring(5);
    let r = uniform(5, 5);
    let before = total(&r);
    let after = total(&plain_step(&r, &g));
    assert!(after <= before && after + 10 >= before);
    let ran = plain_rank(&h, 2);
    assert_eq!(values(&ran), values(&plain_step(&next, &h)));
}

#[test]
fn damped_model_without_damping_is_uniform() {
    let h = three_node();
    let d = absorbent_node_vec(&h);
    let r = RowVec::init_with(3, |i| [ONE / 2, ONE / 4, ONE / 4][i]);
    let next = damped_step(&r, &h, &d, 0);
    assert_eq!(values(&next), vec![ONE / 3; 3]);
    let ran = damped_rank(&h, 4, 0);
    assert_eq!(values(&ran), vec![ONE / 3; 3]);
}

#[test]
fn damped_model_step_values() {
    let h = three_node();
    let d = absorbent_node_vec(&h);
    let next = damped_step(&uniform(3, 3), &h, &d, 990_000_000);
    assert_eq!(values(&next), vec![113_333_333, 278_333_332, 608_333_331]);
    let ran = damped_rank(&h, 10, 990_000_000);
    assert!(total(&ran) <= ONE);
}

#[test]
fn render_then_load_keeps_rows() {
    let h = load(THREE.as_bytes()).unwrap();
    let text = String::from_utf8(render(&h)).unwrap();
    assert_eq!(text, "SparseMatrix: 3 by 3\nrow 0: 1 2 -1\nrow 1: 2 -1\nrow 2: -1");
    let again = load(text.as_bytes()).unwrap();
    assert_eq!(again.m, 3);
    for i in 0..3 {
        assert_eq!(cells(&again, i), cells(&h, i));
    }
}

#[test]
fn load_grows_rows_and_appends() {
    let h = load(b"rows 2 columns 5\nrow 4: 0 -1\nrow 0: 3 -1\nrow 4: 1 4 -1").unwrap();
    assert_eq!(h.m, 5);
    assert_eq!(h.n, 5);
    assert_eq!(cells(&h, 0), vec![(3, ONE)]);
    assert_eq!(cells(&h, 4), vec![(0, ONE), (1, ONE), (4, ONE)]);
    assert_eq!(cells(&h, 2), vec![]);
}

#[test]
fn load_rejects_malformed_text() {
    assert!(load(b"").is_none());
    assert!(load(b"rows 3\n").is_none());
    assert!(load(b"rows x columns 3\n").is_none());
    assert!(load(b"rows 3 columns 3\nrow 0 1 -1\n").is_none());
    assert!(load(b"rows 3 columns 3\nrow 0: 1 z -1\n").is_none());
    assert!(load(b"rows 3 columns 3\nrow 0: 3 -1\n").is_none());
    assert!(load(b"rows 3 columns 3\nr\n").is_none());
}

#[test]
fn parse_pieces() {
    assert_eq!(parse_number(b"x1234", 1, 5), Some(1234));
    assert_eq!(parse_number(b"12a", 0, 3), None);
    assert_eq!(parse_number(b"", 0, 0), None);
    assert_eq!(parse_number(b"99999999999999999999999", 0, 23), None);
    assert_eq!(parse_header(b"rows 7 columns 9"), Some((7, 9)));
    assert_eq!(parse_row(b"row 2: 0 1 -1", 3), Some((2, vec![0, 1])));
    assert_eq!(parse_row(b"row 2: -1", 3), Some((2, vec![])));
    assert_eq!(parse_row(b"row 2: 5 -1", 3), None);
}

#[test]
fn vector_algebra() {
    let r = RowVec::init_with(3, |i| (i as u64 + 1) * ONE);
    assert_eq!(values(&r.mul(ONE / 2)), vec![ONE / 2, ONE, 3 * ONE / 2]);
    assert_eq!(values(&r.div(2)), vec![ONE / 2, ONE, 3 * ONE / 2]);
    let c = ColVec::init_with(3, |i| if i == 1 { ONE } else { 0 });
    assert_eq!(r.dot(&c), 2 * ONE);
    assert_eq!(col_values(&c.mul(2 * ONE)), vec![0, 2 * ONE, 0]);
    assert_eq!(col_values(&c.div(4)), vec![0, ONE / 4, 0]);
    let t: ColVec = r.transpose();
    assert_eq!(col_values(&t), values(&r));
    let back: RowVec = t.transpose();
    assert_eq!(values(&back), values(&r));
    let mut m = RowVec::zeroes(2);
    m.set(0, 10);
    m.add_to_all(5);
    assert_eq!(values(&m), vec![15, 5]);
    m.mul_assign(3 * ONE);
    assert_eq!(values(&m), vec![45, 15]);
    assert_eq!(col_values(&ColVec::zeroes(2)), vec![0, 0]);
}

#[test]
fn sparse_product() {
    let mut h = SMat::new(2, 3);
    h.add_edge(0, 2);
    h.add_edge(1, 2);
    h.add_edge(1, 0);
    let r = RowVec::init_with(2, |i| if i == 0 { 3 } else { 4 });
    // unit weights: the product adds whole entries
    assert_eq!(values(&r.mul_mat(&h)), vec![4, 0, 7]);
}
