//! The credential pool's lease accounting and the stream tee.

use openai_hub::keypool::KeyPool;
use openai_hub::tee::tee_chunks;

#[test]
fn lease_counts_return_to_prior_value() {
    let mut pool = KeyPool::new(vec!["k1".to_string(), "k2".to_string()]);
    assert_eq!(pool.available(), 2);
    assert_eq!(pool.capacity(), 2);
    let k = pool.try_acquire().unwrap();
    assert_eq!(k, "k1");
    assert_eq!(pool.available(), 1);
    pool.release(k);
    assert_eq!(pool.available(), 2);
}

#[test]
fn credentials_rotate_fifo() {
    let mut pool = KeyPool::new(vec!["a".to_string(), "b".to_string()]);
    let first = pool.try_acquire().unwrap();
    pool.release(first);
    let second = pool.try_acquire().unwrap();
    assert_eq!(second, "b");
    pool.release(second);
    let third = pool.try_acquire().unwrap();
    assert_eq!(third, "a");
    pool.release(third);
}

#[test]
fn empty_pool_never_hands_out_a_credential() {
    let mut pool = KeyPool::new(Vec::new());
    assert_eq!(pool.capacity(), 0);
    assert!(pool.try_acquire().is_none());
    assert!(pool.try_acquire().is_none());
}

#[test]
fn pool_of_one_serializes_leases() {
    let mut pool = KeyPool::new(vec!["only".to_string()]);
    let k = pool.try_acquire().unwrap();
    // a second caller finds nothing and must wait
    assert!(pool.try_acquire().is_none());
    pool.release(k);
    // once released, the same credential is reused
    assert_eq!(pool.try_acquire().unwrap(), "only");
}

#[test]
fn tee_clones_good_chunks_and_keeps_the_stream() {
    let input: Vec<Result<Vec<u8>, Vec<u8>>> = vec![
        Ok(b"hel".to_vec()),
        Ok(b"lo".to_vec()),
        Err(b"boom".to_vec()),
        Ok(b"!".to_vec()),
    ];
    let (side, primary) = tee_chunks(input.clone());
    assert_eq!(primary, input);
    assert_eq!(side, vec![b"hel".to_vec(), b"lo".to_vec(), b"!".to_vec()]);
    // the bytes of the good prefix agree on both sides
    let side_bytes: Vec<u8> = side.iter().take(2).flatten().copied().collect();
    let primary_bytes: Vec<u8> = primary
        .iter()
        .take(2)
        .filter_map(|r| r.as_ref().ok())
        .flatten()
        .copied()
        .collect();
    assert_eq!(side_bytes, primary_bytes);
}
