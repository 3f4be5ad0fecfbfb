use maze::random::{randarray, randindex, SeededRandom};
use rand::{Rng, SeedableRng};
use rand_chacha::ChaCha8Rng;

#[test]
fn draws_follow_the_generator_stream() {
    let mut reference = ChaCha8Rng::seed_from_u64(123);
    let mut rng = SeededRandom::seed_from_u64(123);
    for round in 0..5000usize {
        let high = 1 + (round % 97);
        let expected = reference.gen_range(0..high);
        assert_eq!(rng.gen_range(0, high), expected);
    }
    assert_eq!(rng.word_pos, reference.get_word_pos());
    assert_eq!(rng.seed, reference.get_seed());
    assert_eq!(rng.stream, reference.get_stream());
}

#[test]
fn randindex_is_a_permutation() {
    let mut rng = SeededRandom::seed_from_u64(7);
    let mut idx: Vec<usize> = randindex::<usize>(&mut rng, 50);
    assert_eq!(idx.len(), 50);
    idx.sort();
    assert_eq!(idx, (0..50).collect::<Vec<usize>>());
}

#[test]
fn randindex_is_fisher_yates_on_the_stream() {
    let mut reference = ChaCha8Rng::seed_from_u64(99);
    let mut expected: Vec<usize> = (0..20).collect();
    for i in 0..20 {
        let t = reference.gen_range(i..20);
        expected.swap(i, t);
    }
    let mut rng = SeededRandom::seed_from_u64(99);
    assert_eq!(randindex::<usize>(&mut rng, 20), expected);
}

#[test]
fn randarray_keeps_the_items() {
    let mut rng = SeededRandom::seed_from_u64(1);
    let arr = vec![10u32, 20, 30, 40, 50];
    let mut out = randarray(&mut rng, &arr);
    out.sort();
    assert_eq!(out, arr);
}

#[test]
fn randarray_of_nothing_is_nothing() {
    let mut rng = SeededRandom::seed_from_u64(1);
    let before = rng;
    let arr: Vec<u8> = vec![];
    assert_eq!(randarray(&mut rng, &arr), arr);
    assert_eq!(rng, before);
}

#[test]
fn same_seed_same_shuffle() {
    let mut a = SeededRandom::seed_from_u64(42);
    let mut b = SeededRandom::seed_from_u64(42);
    let arr: Vec<u16> = (0..30).collect();
    assert_eq!(randarray(&mut a, &arr), randarray(&mut b, &arr));
    assert_eq!(a, b);
}
