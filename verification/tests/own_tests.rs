use young_tableau_rs::dimension::{checked_count_standard_tableaux, checked_su_dimension};
use young_tableau_rs::lr_rule::pieri_decompose;
use young_tableau_rs::skew::{is_lattice_word, reading_word};
use young_tableau_rs::{
    count_standard_tableaux, enumerate_standard_tableaux, lr_coefficient, su_dimension,
    tensor_product_decompose, Cell, Filling, Fraction, Partition, SemiStandardSkewTableau,
    SkewShape, StandardYoungTableau, YoungDiagram, YoungTableau,
};

fn part(v: &[usize]) -> Partition {
    Partition::new(v.to_vec()).unwrap()
}

fn diag(v: &[usize]) -> YoungDiagram {
    YoungDiagram::from_partition(part(v))
}

fn decomposition(r: &[(Partition, usize)]) -> Vec<(Vec<usize>, usize)> {
    r.iter().map(|(p, c)| (p.parts().to_vec(), *c)).collect()
}

fn filling(entries: &[((usize, usize), usize)]) -> Filling<usize> {
    let mut f = Filling::new();
    for &((r, c), v) in entries {
        f.insert(Cell::new(r, c), v);
    }
    f
}

// ----- partitions -----

#[test]
fn partition_error_messages() {
    assert_eq!(Partition::new(vec![1, 2]).unwrap_err(), "分拆各部分必须非递增");
    assert_eq!(Partition::new(vec![2, 0]).unwrap_err(), "分拆各部分必须为正整数");
    assert_eq!(Partition::new(vec![0]).unwrap_err(), "分拆各部分必须为正整数");
    assert_eq!(Partition::new(vec![2, 0, 1]).unwrap_err(), "分拆各部分必须非递增");
}

#[test]
fn partition_text() {
    assert_eq!(part(&[3, 2, 1]).to_string(), "[3, 2, 1]");
    assert_eq!(part(&[12]).to_string(), "[12]");
    assert_eq!(part(&[]).to_string(), "[]");
}

#[test]
fn partition_accessors() {
    let p = part(&[4, 4, 1]);
    assert_eq!(p.parts(), &[4, 4, 1]);
    assert!(!p.is_empty());
    assert!(part(&[]).is_empty());
    assert_eq!(p.iter().copied().collect::<Vec<_>>(), vec![4, 4, 1]);
    assert_eq!(p.get(2), Some(1));
    assert_eq!(p.size(), 9);
}

#[test]
fn generate_all_in_decreasing_order() {
    let all: Vec<Vec<usize>> = Partition::generate_all(4).iter().map(|p| p.parts().to_vec()).collect();
    assert_eq!(all, vec![vec![4], vec![3, 1], vec![2, 2], vec![2, 1, 1], vec![1, 1, 1, 1]]);
    assert!(Partition::generate_all(0).is_empty());
    assert_eq!(Partition::generate_all(6).len(), 11);
    assert_eq!(Partition::generate_all(1).len(), 1);
}

#[test]
fn containment_reads_parts_past_the_end_as_zero() {
    assert!(part(&[3, 2]).contains(&part(&[])));
    assert!(!part(&[3]).contains(&part(&[1, 1])));
    assert!(part(&[2, 2]).contains(&part(&[2, 2])));
}

// ----- diagrams and cells -----

#[test]
fn diagram_measures() {
    let d = diag(&[4, 2, 1]);
    assert_eq!(d.size(), 7);
    assert_eq!(d.num_rows(), 3);
    assert_eq!(d.num_cols(), 4);
    assert_eq!(d.row_len(2), Some(2));
    assert_eq!(d.row_len(4), None);
    assert_eq!(d.col_height(1), 3);
    assert_eq!(d.col_height(2), 2);
    assert_eq!(d.col_height(5), 0);
    assert!(!d.is_empty());
    assert!(diag(&[]).is_empty());
}

#[test]
fn cells_in_reading_order() {
    let cells: Vec<(usize, usize)> = diag(&[3, 1]).cells().iter().map(|c| (c.row, c.col)).collect();
    assert_eq!(cells, vec![(1, 1), (1, 2), (1, 3), (2, 1)]);
}

#[test]
fn cell_arms_legs_hooks_contents() {
    let d = diag(&[4, 2, 1]);
    let c = Cell::new(1, 2);
    assert_eq!(c.arm(&d), 2);
    assert_eq!(c.leg(&d), 1);
    assert_eq!(c.hook_length(&d), 4);
    let h = c.hook(&d);
    assert_eq!((h.arm_len, h.leg_len, h.length()), (2, 1, 4));
    assert_eq!(Cell::new(3, 1).content(), -2);
    assert_eq!(Cell::new(1, 4).content(), 3);
    assert_eq!(Cell::new(3, 2).arm(&d), 0);
    assert!(!Cell::new(3, 2).is_in(&d));
    assert_eq!(diag(&[4, 2, 1]).hook_lengths(), vec![6, 4, 2, 1, 3, 1, 1]);
}

#[test]
fn conjugate_twice_gives_back_the_diagram() {
    for p in Partition::generate_all(6) {
        let d = YoungDiagram::from_partition(p.clone());
        let back = d.conjugate().conjugate();
        assert_eq!(back.partition().parts(), p.parts());
        assert_eq!(d.conjugate().size(), d.size());
    }
}

#[test]
fn containment_carries_over_to_conjugates() {
    let all = Partition::generate_all(5);
    for a in &all {
        for b in Partition::generate_all(3) {
            let ca = YoungDiagram::from_partition(a.clone()).conjugate();
            let cb = YoungDiagram::from_partition(b.clone()).conjugate();
            assert_eq!(a.contains(&b), ca.partition().contains(cb.partition()));
        }
    }
}

#[test]
fn diagram_drawing() {
    assert_eq!(diag(&[2, 1]).to_string(), "┌──┬──┐\n│  │  │\n├──┼──┘\n│  │\n└──┘\n");
    assert_eq!(diag(&[1]).to_string(), "┌──┐\n│  │\n└──┘\n");
    assert_eq!(
        diag(&[3, 1]).to_string(),
        "┌──┬──┬──┐\n│  │  │  │\n├──┼──┴──┘\n│  │\n└──┘\n"
    );
    assert_eq!(diag(&[]).to_string(), "");
}

// ----- tableaux -----

#[test]
fn tableau_drawing() {
    let t = StandardYoungTableau::try_new(diag(&[2, 1]), filling(&[((1, 1), 1), ((1, 2), 3), ((2, 1), 2)])).unwrap();
    assert_eq!(t.display(), "┌─┬─┐\n│1│3│\n├─┼─┘\n│2│\n└─┘");

    let wide = YoungTableau::with_filling(
        diag(&[2, 2]),
        filling(&[((1, 1), 1), ((1, 2), 10), ((2, 1), 2), ((2, 2), 11)]),
    );
    assert_eq!(wide.display(), "┌──┬──┐\n│1 │10│\n├──┼──┤\n│2 │11│\n└──┴──┘");

    let empty: YoungTableau<usize> = YoungTableau::new(diag(&[]));
    assert_eq!(empty.display(), "");
}

#[test]
fn tableau_drawing_with_texts() {
    let mut values: Filling<&str> = Filling::new();
    values.insert(Cell::new(1, 1), "é");
    values.insert(Cell::new(1, 2), "x");
    let t = YoungTableau::with_filling(diag(&[2]), values);
    let mut texts: Filling<String> = Filling::new();
    for i in 0..t.filling().len() {
        let (cell, v) = t.filling().entry(i);
        texts.insert(*cell, v.to_string());
    }
    assert_eq!(t.display_texts(&texts), "┌──┬──┐\n│é │x │\n└──┴──┘");

    let mut partial: Filling<String> = Filling::new();
    partial.insert(Cell::new(1, 1), "ab".to_string());
    partial.insert(Cell::new(1, 2), "c".to_string());
    let u: YoungTableau<char> = YoungTableau::new(diag(&[2, 1]));
    assert_eq!(u.display_texts(&partial), "┌──┬──┐\n│ab│c │\n├──┼──┘\n│  │\n└──┘");
}

#[test]
fn tableau_get_and_set() {
    let mut t: YoungTableau<usize> = YoungTableau::new(diag(&[2]));
    assert_eq!(t.get(&Cell::new(1, 1)), None);
    t.set(Cell::new(1, 1), 7);
    t.set(Cell::new(1, 1), 8);
    assert_eq!(t.get(&Cell::new(1, 1)), Some(&8));
    assert_eq!(t.filling().len(), 1);
    assert_eq!(t.shape().size(), 2);
}

#[test]
fn standard_tableau_error_messages() {
    let shape = diag(&[2, 1]);
    let missing = filling(&[((1, 1), 1), ((1, 2), 2)]);
    assert_eq!(StandardYoungTableau::try_new(shape.clone(), missing).unwrap_err(), "存在未填充的格子");
    let range = filling(&[((1, 1), 1), ((1, 2), 4), ((2, 1), 2)]);
    assert_eq!(StandardYoungTableau::try_new(shape.clone(), range).unwrap_err(), "填值必须在 1..n 范围内");
    let zero = filling(&[((1, 1), 0), ((1, 2), 1), ((2, 1), 2)]);
    assert_eq!(StandardYoungTableau::try_new(shape.clone(), zero).unwrap_err(), "填值必须在 1..n 范围内");
    let twice = filling(&[((1, 1), 1), ((1, 2), 1), ((2, 1), 2)]);
    assert_eq!(StandardYoungTableau::try_new(shape.clone(), twice).unwrap_err(), "填值重复");
    let rows = filling(&[((1, 1), 2), ((1, 2), 1), ((2, 1), 3)]);
    assert_eq!(StandardYoungTableau::try_new(shape.clone(), rows).unwrap_err(), "行必须严格递增");
    let cols = filling(&[((1, 1), 2), ((1, 2), 3), ((2, 1), 1)]);
    assert_eq!(StandardYoungTableau::try_new(shape.clone(), cols).unwrap_err(), "列必须严格递增");
}

#[test]
fn enumeration_matches_hook_length_count() {
    for n in 1..=6 {
        for p in Partition::generate_all(n) {
            let d = YoungDiagram::from_partition(p);
            let listed = enumerate_standard_tableaux(&d);
            let counted = count_standard_tableaux(&d);
            assert_eq!(counted.denom(), 1);
            assert_eq!(listed.len() as i64, counted.numer());
            for t in &listed {
                let mut again = Filling::new();
                for c in d.cells() {
                    again.insert(c, *t.get(&c).unwrap());
                }
                assert!(StandardYoungTableau::try_new(d.clone(), again).is_ok());
            }
        }
    }
    assert!(enumerate_standard_tableaux(&diag(&[])).is_empty());
}

#[test]
fn enumeration_order() {
    let listed = enumerate_standard_tableaux(&diag(&[2, 1]));
    let firsts: Vec<(usize, usize)> = listed
        .iter()
        .map(|t| (*t.get(&Cell::new(1, 2)).unwrap(), *t.get(&Cell::new(2, 1)).unwrap()))
        .collect();
    assert_eq!(firsts, vec![(2, 3), (3, 2)]);
}

// ----- fillings -----

#[test]
fn filling_insert_get_remove() {
    let mut f: Filling<usize> = Filling::new();
    assert_eq!(f.insert(Cell::new(1, 1), 5), None);
    assert_eq!(f.insert(Cell::new(1, 1), 6), Some(5));
    assert_eq!(f.insert(Cell::new(2, 1), 7), None);
    assert_eq!(f.len(), 2);
    assert_eq!(f.get(&Cell::new(1, 1)), Some(&6));
    assert_eq!(f.remove(&Cell::new(1, 1)), Some(6));
    assert_eq!(f.remove(&Cell::new(1, 1)), None);
    assert_eq!(f.get(&Cell::new(1, 1)), None);
    assert_eq!(f.len(), 1);
}

// ----- skew shapes -----

#[test]
fn skew_shape_cells_and_refusal() {
    let s = SkewShape::new(diag(&[3, 2]), diag(&[1])).unwrap();
    let cells: Vec<(usize, usize)> = s.cells().iter().map(|c| (c.row, c.col)).collect();
    assert_eq!(cells, vec![(1, 2), (1, 3), (2, 1), (2, 2)]);
    assert_eq!(s.size(), 4);
    assert!(s.contains(&Cell::new(2, 1)));
    assert!(!s.contains(&Cell::new(1, 1)));
    assert!(s.has_right(&Cell::new(1, 2)));
    assert!(!s.has_left(&Cell::new(1, 2)));
    assert!(s.has_down(&Cell::new(1, 2)));
    assert!(!s.has_up(&Cell::new(2, 1)));
    assert_eq!(SkewShape::new(diag(&[2]), diag(&[1, 1])).unwrap_err(), "外分拆必须包含内分拆");
}

#[test]
fn reading_words_and_lattice_words() {
    let s = SkewShape::new(diag(&[3, 2]), diag(&[1])).unwrap();
    let f = filling(&[((1, 2), 1), ((1, 3), 1), ((2, 1), 1), ((2, 2), 2)]);
    assert_eq!(reading_word(&s, &f), vec![1, 1, 2, 1]);
    let t = SemiStandardSkewTableau::from_trusted(s, f);
    assert_eq!(t.reading_word(), vec![1, 1, 2, 1]);
    assert!(t.is_lattice_word());
    assert!(is_lattice_word(&vec![1, 2, 1, 3]));
    assert!(!is_lattice_word(&vec![1, 2, 2]));
    assert!(!is_lattice_word(&vec![2]));
    assert!(is_lattice_word(&vec![]));
}

// ----- Littlewood-Richardson -----

#[test]
fn lr_coefficient_values() {
    assert_eq!(lr_coefficient(&part(&[2, 1]), &part(&[2, 1]), &part(&[3, 2, 1])), 2);
    assert_eq!(lr_coefficient(&part(&[2, 1]), &part(&[2, 1]), &part(&[4, 2])), 1);
    assert_eq!(lr_coefficient(&part(&[2, 1]), &part(&[2, 1]), &part(&[6])), 0);
    assert_eq!(lr_coefficient(&part(&[2, 1]), &part(&[1]), &part(&[3, 2])), 0);
}

#[test]
fn lr_coefficient_is_symmetric_on_examples() {
    for lam in Partition::generate_all(3) {
        for mu in Partition::generate_all(2) {
            for nu in Partition::generate_all(5) {
                assert_eq!(lr_coefficient(&lam, &mu, &nu), lr_coefficient(&mu, &lam, &nu));
            }
        }
    }
}

#[test]
fn tensor_product_order_and_sizes() {
    let r = decomposition(&tensor_product_decompose(&part(&[2, 1]), &part(&[2, 1])));
    assert_eq!(
        r,
        vec![
            (vec![4, 2], 1),
            (vec![4, 1, 1], 1),
            (vec![3, 3], 1),
            (vec![3, 2, 1], 2),
            (vec![3, 1, 1, 1], 1),
            (vec![2, 2, 2], 1),
            (vec![2, 2, 1, 1], 1),
        ]
    );
    assert!(tensor_product_decompose(&part(&[]), &part(&[])).is_empty());
}

// ----- Pieri -----

#[test]
fn pieri_one_row() {
    let r = decomposition(&pieri_decompose(&part(&[2, 1]), &part(&[2])));
    assert_eq!(r, vec![(vec![4, 1], 1), (vec![3, 2], 1), (vec![3, 1, 1], 1), (vec![2, 2, 1], 1)]);
}

#[test]
fn pieri_is_the_tensor_product_decomposition() {
    for n in 1..=4 {
        for lam in Partition::generate_all(n) {
            for k in 1..=3 {
                for mu in Partition::generate_all(k) {
                    assert_eq!(
                        decomposition(&pieri_decompose(&lam, &mu)),
                        decomposition(&tensor_product_decompose(&lam, &mu))
                    );
                }
            }
        }
    }
    let r = decomposition(&pieri_decompose(&part(&[]), &part(&[1])));
    assert_eq!(r, vec![(vec![1], 1)]);
}

#[test]
fn pieri_two_boxes_in_one_column_are_refused() {
    let r = decomposition(&pieri_decompose(&part(&[1, 1]), &part(&[2])));
    assert_eq!(r, vec![(vec![3, 1], 1), (vec![2, 1, 1], 1)]);
    let r = decomposition(&pieri_decompose(&part(&[1]), &part(&[3])));
    assert_eq!(r, vec![(vec![4], 1), (vec![3, 1], 1)]);
}

#[test]
fn pieri_column_of_two() {
    let r = decomposition(&pieri_decompose(&part(&[1]), &part(&[1, 1])));
    assert_eq!(r, vec![(vec![2, 1], 1), (vec![1, 1, 1], 1)]);
    let r = decomposition(&pieri_decompose(&part(&[]), &part(&[2, 1])));
    assert_eq!(r, vec![(vec![2, 1], 1)]);
}

#[test]
fn pieri_with_nothing_to_add() {
    let r = decomposition(&pieri_decompose(&part(&[3, 1]), &part(&[])));
    assert_eq!(r, vec![(vec![3, 1], 1)]);
    let r = decomposition(&pieri_decompose(&part(&[]), &part(&[])));
    assert_eq!(r, vec![(vec![], 1)]);
}

#[test]
fn pieri_two_rows() {
    let r = decomposition(&pieri_decompose(&part(&[2, 1]), &part(&[2, 1])));
    assert_eq!(
        r,
        vec![
            (vec![4, 2], 1),
            (vec![4, 1, 1], 1),
            (vec![3, 3], 1),
            (vec![3, 2, 1], 2),
            (vec![3, 1, 1, 1], 1),
            (vec![2, 2, 2], 1),
            (vec![2, 2, 1, 1], 1),
        ]
    );
}

#[test]
fn pieri_shapes_contain_lambda_and_stay_under_the_bound() {
    for n in 0..=4 {
        for lam in Partition::generate_all(n).into_iter().chain(std::iter::once(part(&[]))) {
            for k in 1..=3 {
                for mu in Partition::generate_all(k) {
                    let r = pieri_decompose(&lam, &mu);
                    let mut sequences = 0usize;
                    for (nu, c) in &r {
                        assert!(nu.contains(&lam));
                        assert_eq!(nu.size(), lam.size() + mu.size());
                        sequences += *c;
                    }
                    let rows = (lam.len() + mu.len()) as u32;
                    let bound = (mu.size() + 1).pow(rows).pow(mu.len() as u32);
                    assert!(sequences <= bound);
                }
            }
        }
    }
}

#[test]
fn pieri_one_row_gives_each_horizontal_strip_once() {
    for n in 0..=4 {
        for lam in Partition::generate_all(n).into_iter().chain(std::iter::once(part(&[]))) {
            for k in 1..=3usize {
                let r = decomposition(&pieri_decompose(&lam, &part(&[k])));
                let mut expected: Vec<(Vec<usize>, usize)> = Vec::new();
                for nu in Partition::generate_all(lam.size() + k) {
                    let nu_p = nu.parts();
                    let lam_p = lam.parts();
                    let at = |s: &[usize], i: usize| if i < s.len() { s[i] } else { 0 };
                    let strip = nu.contains(&lam)
                        && (1..nu_p.len()).all(|i| nu_p[i] <= at(lam_p, i - 1));
                    if strip {
                        expected.push((nu_p.to_vec(), 1));
                    }
                }
                assert_eq!(r, expected);
            }
        }
    }
}

#[test]
fn pieri_main_example() {
    let r = decomposition(&pieri_decompose(&part(&[4, 3, 2, 1]), &part(&[2, 1])));
    assert_eq!(r[0], (vec![6, 4, 2, 1], 1));
    assert!(r.contains(&(vec![5, 4, 3, 1], 2)));
    for (nu, c) in &r {
        assert_eq!(nu.iter().sum::<usize>(), 13);
        assert_eq!(*c, lr_coefficient(&part(&[4, 3, 2, 1]), &part(&[2, 1]), &part(nu)));
    }
}

// ----- clones and skew neighbours -----

#[test]
fn clones_keep_everything() {
    let s = SkewShape::new(diag(&[3, 2]), diag(&[1])).unwrap();
    let s2 = s.clone();
    assert_eq!(s, s2);
    let t = SemiStandardSkewTableau::from_trusted(s2, filling(&[((1, 2), 1), ((1, 3), 1)]));
    let t2 = t.clone();
    assert_eq!(t2.reading_word(), t.reading_word());
    let y = StandardYoungTableau::try_new(diag(&[2, 1]), filling(&[((1, 1), 1), ((1, 2), 3), ((2, 1), 2)])).unwrap();
    assert_eq!(y.clone().display(), y.display());
    let u: YoungTableau<usize> = YoungTableau::with_filling(diag(&[1]), filling(&[((1, 1), 5)]));
    assert_eq!(u.clone().get(&Cell::new(1, 1)), Some(&5));
}

#[test]
fn skew_neighbours_of_row_zero() {
    let s = SkewShape::new(diag(&[3, 2]), diag(&[1])).unwrap();
    assert!(!s.has_left(&Cell::new(0, 1)));
    assert!(!s.has_left(&Cell::new(0, 0)));
    assert!(!s.has_up(&Cell::new(0, 3)));
}

#[test]
fn conjugate_transposes_cells() {
    for p in Partition::generate_all(6) {
        let d = YoungDiagram::from_partition(p);
        let e = d.conjugate();
        assert_eq!(e.num_rows(), d.num_cols());
        assert_eq!(e.num_cols(), d.num_rows());
        for r in 1..=7 {
            for c in 1..=7 {
                assert_eq!(Cell::new(r, c).is_in(&d) && c >= 1, Cell::new(c, r).is_in(&e));
            }
        }
    }
}

// ----- dimensions and fractions -----

#[test]
fn su_dimensions_of_larger_shapes() {
    let f = su_dimension(&diag(&[4, 3, 2, 1]), 4);
    assert_eq!((f.numer(), f.denom()), (64, 1));
    let f = su_dimension(&diag(&[2, 2]), 2);
    assert_eq!((f.numer(), f.denom()), (1, 1));
    let f = su_dimension(&diag(&[1, 1, 1]), 2);
    assert_eq!((f.numer(), f.denom()), (0, 1));
    let f = su_dimension(&diag(&[]), 5);
    assert_eq!((f.numer(), f.denom()), (1, 1));
}

#[test]
fn counts_that_overflow_are_refused() {
    let big = diag(&[30]);
    assert!(checked_count_standard_tableaux(&big).is_some());
    let tall = YoungDiagram::from_partition(Partition::new(vec![1; 25]).unwrap());
    assert!(checked_count_standard_tableaux(&tall).is_some());
    let staircase = diag(&[8, 7, 6, 5, 4, 3, 2, 1]);
    assert!(checked_count_standard_tableaux(&staircase).is_none());
    let f = checked_count_standard_tableaux(&diag(&[6, 5, 4, 3, 2, 1])).unwrap();
    assert_eq!((f.numer(), f.denom()), (1100742656, 1));
    assert!(checked_su_dimension(&diag(&[2, 1]), 3).is_some());
    assert!(checked_su_dimension(&diag(&[40]), 1 << 40).is_none());
}

#[test]
fn fractions_in_lowest_terms() {
    let f = Fraction::new(6, 8);
    assert_eq!((f.numer(), f.denom()), (3, 4));
    let g = Fraction::new(-10, 4);
    assert_eq!((g.numer(), g.denom()), (-5, 2));
    let p = f.checked_mul(&g).unwrap();
    assert_eq!((p.numer(), p.denom()), (-15, 8));
    let huge = Fraction::new(i64::MAX, 1);
    assert!(huge.checked_mul(&Fraction::new(2, 1)).is_none());
    assert_eq!(huge.checked_mul(&Fraction::new(1, 2)).map(|q| (q.numer(), q.denom())), Some((i64::MAX, 2)));
}
