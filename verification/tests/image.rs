use raytracer::config::RenderConfig;
use rand::rngs::StdRng;
use rand::{RngCore, SeedableRng};
use raytracer::image::Image;
use std::cell::RefCell;

#[test]
fn from_rows_keeps_a_grid() {
    let image = Image::from_rows(vec![vec![1, 2, 3], vec![4, 5, 6]]).unwrap();
    assert_eq!(image.width(), 3);
    assert_eq!(image.height(), 2);
    assert_eq!(image.lines(), &vec![vec![1, 2, 3], vec![4, 5, 6]]);
}

#[test]
fn from_rows_rejects_no_rows() {
    assert!(Image::<u8>::from_rows(vec![]).is_none());
}

#[test]
fn from_rows_rejects_empty_rows() {
    assert!(Image::<u8>::from_rows(vec![vec![], vec![]]).is_none());
}

#[test]
fn from_rows_rejects_ragged_rows() {
    assert!(Image::from_rows(vec![vec![1, 2], vec![3]]).is_none());
    assert!(Image::from_rows(vec![vec![1], vec![2, 3]]).is_none());
    assert!(Image::from_rows(vec![vec![1, 2], vec![3, 4], vec![]]).is_none());
}

#[test]
fn get_reads_column_then_row() {
    let image = Image::from_rows(vec![vec![1, 2, 3], vec![4, 5, 6]]).unwrap();
    assert_eq!(image.get(0, 0), Some(&1));
    assert_eq!(image.get(2, 0), Some(&3));
    assert_eq!(image.get(0, 1), Some(&4));
    assert_eq!(image.get(2, 1), Some(&6));
}

#[test]
fn get_outside_the_grid_is_none() {
    let image = Image::from_rows(vec![vec![1, 2, 3], vec![4, 5, 6]]).unwrap();
    assert_eq!(image.get(3, 0), None);
    assert_eq!(image.get(0, 2), None);
    assert_eq!(image.get(usize::MAX, usize::MAX), None);
}

#[test]
fn map_converts_every_pixel_in_place() {
    let image = Image::from_rows(vec![vec![1u32, 2, 3], vec![4, 5, 6]]).unwrap();
    let doubled = image.map(&|p: &u32| u64::from(*p) * 2);
    assert_eq!(doubled.width(), 3);
    assert_eq!(doubled.height(), 2);
    assert_eq!(doubled.lines(), &vec![vec![2u64, 4, 6], vec![8, 10, 12]]);
}

fn sum(total: usize, sample: usize) -> usize {
    total + sample
}

fn mean(total: usize, count: usize) -> usize {
    total / count
}

#[test]
fn sample_fills_the_configured_shape() {
    let config = RenderConfig::new(4, 3, 2, 1).unwrap();
    let image = Image::sample(&config, 0, 0, &|_: StdRng, x, y| 10 * y + x, &sum, &mean);
    assert_eq!(image.width(), 4);
    assert_eq!(image.height(), 3);
    assert_eq!(
        image.lines(),
        &vec![vec![0, 1, 2, 3], vec![10, 11, 12, 13], vec![20, 21, 22, 23]]
    );
}

#[test]
fn sample_takes_the_configured_number_of_estimates() {
    let config = RenderConfig::new(2, 2, 5, 1).unwrap();
    let total = Image::sample(&config, 0, 0, &|_: StdRng, _, _| 1usize, &sum, &|total, _| total);
    assert_eq!(total.lines(), &vec![vec![5, 5], vec![5, 5]]);
    let count = Image::sample(&config, 0, 0, &|_: StdRng, _, _| 1usize, &sum, &|_, count| count);
    assert_eq!(count.lines(), &vec![vec![5, 5], vec![5, 5]]);
}

#[test]
fn sample_starts_every_sum_from_black() {
    let config = RenderConfig::new(2, 2, 3, 1).unwrap();
    let image = Image::sample(&config, 0, 100, &|_: StdRng, _, _| 1usize, &sum, &|total, _| total);
    assert_eq!(image.lines(), &vec![vec![103, 103], vec![103, 103]]);
}

#[test]
fn sample_scales_the_sum_of_the_estimates_of_one_pixel() {
    let config = RenderConfig::new(3, 1, 4, 1).unwrap();
    let next = RefCell::new(0usize);
    let estimate = |_: StdRng, _: usize, _: usize| {
        let mut n = next.borrow_mut();
        *n += 1;
        *n
    };
    let image = Image::sample(&config, 0, 0, &estimate, &sum, &mean);
    // estimates 1..=4, 5..=8, 9..=12
    assert_eq!(image.lines(), &vec![vec![10 / 4, 26 / 4, 42 / 4]]);
}

#[test]
fn sample_adds_the_estimates_in_their_order() {
    let config = RenderConfig::new(1, 1, 4, 1).unwrap();
    let next = RefCell::new(0u64);
    let estimate = |_: StdRng, _: usize, _: usize| {
        let mut n = next.borrow_mut();
        *n += 1;
        *n
    };
    // the digits of the sum are the estimates in the order they were added
    let image =
        Image::sample(&config, 0, 0, &estimate, &|total, sample| total * 10 + sample, &|total, _| {
            total
        });
    assert_eq!(image.get(0, 0), Some(&1234));
}

#[test]
fn sample_visits_rows_from_zero_and_columns_within() {
    let config = RenderConfig::new(2, 3, 2, 1).unwrap();
    let visits = RefCell::new(Vec::new());
    let estimate = |_: StdRng, x: usize, y: usize| {
        visits.borrow_mut().push((x, y));
    };
    Image::sample(&config, 0, (), &estimate, &|_, _| (), &|_, _| ());
    assert_eq!(
        visits.into_inner(),
        vec![
            (0, 0), (0, 0), (1, 0), (1, 0),
            (0, 1), (0, 1), (1, 1), (1, 1),
            (0, 2), (0, 2), (1, 2), (1, 2),
        ]
    );
}

#[test]
fn sample_of_one_pixel() {
    let config = RenderConfig::new(1, 1, 1, 0).unwrap();
    let image = Image::sample(
        &config,
        9,
        (7, 7),
        &|_: StdRng, x, y| (x, y),
        &|_, sample| sample,
        &|total, count| {
            assert_eq!(count, 1);
            total
        },
    );
    assert_eq!(image.get(0, 0), Some(&(0, 0)));
    assert_eq!(image.width(), 1);
    assert_eq!(image.height(), 1);
}

// What every estimate of a pixel draws first from its generator, in the order
// of the estimates; up to four estimates per pixel.
type Draws = (usize, [u64; 4]);

fn first_draws(config: &RenderConfig, seed: u64) -> Image<Draws> {
    Image::sample(
        config,
        seed,
        (0, [0; 4]),
        &|mut rng: StdRng, _, _| (1, [rng.next_u64(), 0, 0, 0]),
        &|(taken, mut draws): Draws, (_, sample): Draws| {
            draws[taken] = sample[0];
            (taken + 1, draws)
        },
        &|total, _| total,
    )
}

#[test]
fn every_estimate_draws_from_the_stream_of_its_place() {
    let config = RenderConfig::new(3, 2, 4, 1).unwrap();
    let image = first_draws(&config, 1000);
    for y in 0..2u64 {
        for x in 0..3u64 {
            let (taken, draws) = image.get(x as usize, y as usize).unwrap();
            assert_eq!(*taken, 4);
            for taken in 0..4u64 {
                let place = (y * 3 + x) * 4 + taken;
                let mut expected = StdRng::seed_from_u64(1000 + place);
                assert_eq!(draws[taken as usize], expected.next_u64());
            }
        }
    }
}

#[test]
fn the_first_estimate_draws_from_the_stream_of_the_seed() {
    let config = RenderConfig::new(1, 1, 1, 1).unwrap();
    let image = first_draws(&config, 42);
    let (_, draws) = image.get(0, 0).unwrap();
    assert_eq!(draws[0], StdRng::seed_from_u64(42).next_u64());
    // a generator is not its seed
    assert_ne!(draws[0], 42);
}

#[test]
fn stream_seeds_wrap_around() {
    let config = RenderConfig::new(2, 1, 2, 1).unwrap();
    let image = first_draws(&config, u64::MAX - 1);
    let expected: Vec<u64> = [u64::MAX - 1, u64::MAX, 0, 1]
        .into_iter()
        .map(|seed| StdRng::seed_from_u64(seed).next_u64())
        .collect();
    assert_eq!(image.get(0, 0).unwrap().1[..2], expected[..2]);
    assert_eq!(image.get(1, 0).unwrap().1[..2], expected[2..]);
}

#[test]
fn all_streams_of_a_render_differ() {
    let config = RenderConfig::new(5, 4, 3, 1).unwrap();
    let image = first_draws(&config, 7);
    let mut draws: Vec<u64> =
        image.lines().iter().flatten().flat_map(|(_, draws)| draws[..3].to_vec()).collect();
    assert_eq!(draws.len(), 5 * 4 * 3);
    draws.sort();
    draws.dedup();
    assert_eq!(draws.len(), 5 * 4 * 3);
}

#[test]
fn same_seed_same_image_other_seed_other_image() {
    let config = RenderConfig::new(5, 4, 3, 1).unwrap();
    assert_eq!(first_draws(&config, 7).lines(), first_draws(&config, 7).lines());
    assert_ne!(first_draws(&config, 7).lines(), first_draws(&config, 8).lines());
}
