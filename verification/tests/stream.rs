use pixel_scramble::digest::KeyStream;
use pixel_scramble::permutation::{gather_through, scatter_through};
use pixel_scramble::utils::ranking::rank_samples;

#[test]
fn stream_starts_with_the_digest_of_the_key() {
    let mut stream = KeyStream::new(b"");
    assert_eq!(stream.next_word(), 0xd41d_8cd9_8f00_b204);
    assert_eq!(stream.next_word(), 0xe980_0998_ecf8_427e);
    let mut stream = KeyStream::new(b"abc");
    assert_eq!(stream.next_word(), 0x9001_5098_3cd2_4fb0);
    assert_eq!(stream.next_word(), 0xd696_3f7d_28e1_7f72);
}

#[test]
fn stream_goes_on_with_the_digest_of_the_block_before() {
    let mut stream = KeyStream::new(b"");
    stream.next_word();
    stream.next_word();
    assert_eq!(stream.next_word(), 0x59ad_b24e_f3cd_be02);
    assert_eq!(stream.next_word(), 0x97f0_5b39_5827_453f);
}

#[test]
fn gather_reads_through_positions() {
    assert_eq!(gather_through(&[10, 20, 30, 40], &vec![2, 0, 3, 1]), vec![30, 10, 40, 20]);
    assert_eq!(gather_through(&[], &vec![]), Vec::<i32>::new());
}

#[test]
fn scatter_writes_through_positions() {
    assert_eq!(scatter_through(&[10, 20, 30, 40], &vec![2, 0, 3, 1]), vec![20, 40, 10, 30]);
    assert_eq!(scatter_through(&[], &vec![]), Vec::<i32>::new());
}

#[test]
fn scatter_undoes_gather() {
    let positions = vec![4, 2, 0, 1, 3];
    let pixels = [5, 6, 7, 8, 9];
    let moved = gather_through(&pixels, &positions);
    assert_eq!(scatter_through(&moved, &positions), pixels.to_vec());
    let moved = scatter_through(&pixels, &positions);
    assert_eq!(gather_through(&moved, &positions), pixels.to_vec());
}

#[test]
fn ranking_orders_by_sample_then_by_index() {
    assert_eq!(rank_samples(&[30, 10, 20]), vec![1, 2, 0]);
    assert_eq!(rank_samples(&[5, 5, 5, 5]), vec![0, 1, 2, 3]);
    assert_eq!(rank_samples(&[7, 3, 7, 3, 1]), vec![4, 1, 3, 0, 2]);
    assert_eq!(rank_samples(&[]), Vec::<usize>::new());
    assert_eq!(rank_samples(&[u64::MAX, 0]), vec![1, 0]);
}

#[test]
fn ranking_of_many_samples_is_sorted() {
    let mut x: u64 = 88172645463325252;
    let samples: Vec<u64> = (0..5000)
        .map(|_| {
            x ^= x << 13;
            x ^= x >> 7;
            x ^= x << 17;
            x % 1000
        })
        .collect();
    let positions = rank_samples(&samples);
    assert_eq!(positions.len(), samples.len());
    for pair in positions.windows(2) {
        let (a, b) = (pair[0], pair[1]);
        assert!(samples[a] < samples[b] || (samples[a] == samples[b] && a < b));
    }
}
