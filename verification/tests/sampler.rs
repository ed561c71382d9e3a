use inference_server::sampler::{draw, greedy, nucleus, rank};

fn bits(values: &[f32]) -> Vec<u32> {
    values.iter().map(|v| v.to_bits()).collect()
}

#[test]
fn greedy_takes_the_first_maximum() {
    assert_eq!(greedy(&bits(&[])), 0);
    assert_eq!(greedy(&bits(&[1.0])), 0);
    assert_eq!(greedy(&bits(&[-1.0, 3.5, 2.0, 3.5])), 1);
    assert_eq!(greedy(&bits(&[-3.0, -2.0, -4.0])), 1);
    assert_eq!(greedy(&bits(&[-0.0, 0.0])), 0);
    assert_eq!(greedy(&bits(&[f32::NEG_INFINITY, 1.0, f32::INFINITY])), 2);
    assert_eq!(greedy(&bits(&[1.0, f32::NAN, 2.0])), 2);
    assert_eq!(greedy(&bits(&[f32::NAN, 2.0])), 0);
}

#[test]
fn greedy_agrees_with_comparisons() {
    let mut seed: u64 = 5;
    for _ in 0..2000u32 {
        let mut values: Vec<f32> = Vec::new();
        for _ in 0..(1 + seed % 9) {
            seed = seed.wrapping_mul(6364136223846793005).wrapping_add(1442695040888963407);
            values.push(f32::from_bits((seed >> 32) as u32));
        }
        let mut best: usize = 0;
        for i in 1..values.len() {
            if values[i] > values[best] {
                best = i;
            }
        }
        assert_eq!(greedy(&bits(&values)), best, "{:?}", values);
    }
}

#[test]
fn ranks_from_the_top() {
    assert_eq!(rank(&bits(&[0.1, 0.4, 0.1, 0.4])), vec![1, 3, 0, 2]);
    assert_eq!(rank(&bits(&[f32::NAN, f32::NAN, f32::NAN])), vec![0, 1, 2]);
    assert_eq!(rank(&bits(&[])), Vec::<usize>::new());
}

#[test]
fn ranks_like_a_stable_sort() {
    let mut seed: u64 = 9;
    for _ in 0..500u32 {
        let mut w: Vec<f32> = Vec::new();
        for _ in 0..(1 + seed % 40) {
            seed = seed.wrapping_mul(6364136223846793005).wrapping_add(1442695040888963407);
            w.push(((seed >> 33) % 16) as f32 / 16.0);
        }
        let mut idx: Vec<usize> = (0..w.len()).collect();
        idx.sort_by(|&a, &b| w[b].partial_cmp(&w[a]).unwrap());
        assert_eq!(rank(&bits(&w)), idx);
    }
}

#[test]
fn nucleus_stops_at_the_cut() {
    let sums = bits(&[0.4, 0.7, 0.9, 1.0]);
    assert_eq!(nucleus(&sums, 0.3f32.to_bits()), 1);
    assert_eq!(nucleus(&sums, 0.7f32.to_bits()), 2);
    assert_eq!(nucleus(&sums, 0.8f32.to_bits()), 3);
    assert_eq!(nucleus(&sums, 2.0f32.to_bits()), 4);
    assert_eq!(nucleus(&bits(&[]), 0.5f32.to_bits()), 1);
    assert_eq!(nucleus(&bits(&[f32::NAN, f32::NAN]), 0.5f32.to_bits()), 2);
}

#[test]
fn draws_by_the_sums() {
    let sums = bits(&[0.4, 0.7, 0.9]);
    assert_eq!(draw(&sums, 0.0f32.to_bits()), 0);
    assert_eq!(draw(&sums, 0.4f32.to_bits()), 0);
    assert_eq!(draw(&sums, 0.5f32.to_bits()), 1);
    assert_eq!(draw(&sums, 0.9f32.to_bits()), 2);
    assert_eq!(draw(&sums, 5.0f32.to_bits()), 2);
    assert_eq!(draw(&sums, f32::NAN.to_bits()), 2);
}
