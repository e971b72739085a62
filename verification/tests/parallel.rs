use qoala::parallel::fold;

/// Every index is visited exactly once, and the merges keep them in
/// order, for lengths either side of a whole number of pieces.
#[test]
fn every_index_is_folded_once_in_order() {
    for pieces in [0, 1, 2, 7, 64] {
        for len in [0, 1, 2, 63, 64, 65, 100, 129, 1000] {
            let got = fold(
                len,
                pieces,
                Vec::new,
                |mut v: Vec<usize>, i| {
                    v.push(i);
                    v
                },
                |mut a: Vec<usize>, b: Vec<usize>| {
                    a.extend(b);
                    a
                },
            );
            assert_eq!(got, (0..len).collect::<Vec<_>>(), "{len} in {pieces}");
        }
    }
}

/// No more accumulators are made than pieces were asked for.
#[test]
fn the_piece_count_is_an_upper_bound() {
    for (len, pieces) in [(10, 64), (100, 64), (100, 8), (1000, 3), (5, 0)] {
        let made = fold(len, pieces, || 1usize, |a, _| a, |a, b| a + b);
        assert!(
            made <= pieces.max(1) && made <= len,
            "{made} for {len} in {pieces}"
        );
    }
}

#[test]
fn an_empty_range_gives_the_initial_value() {
    let got = fold(0, 8, || 42u64, |a, i| a + i as u64, |a, b| a + b);
    assert_eq!(got, 42);
}

#[test]
fn pieces_are_contiguous_runs_of_one_length() {
    // Each piece records where it starts and how long it is.
    let runs = fold(
        10,
        3,
        Vec::new,
        |mut v: Vec<(usize, usize)>, i| {
            match v.last_mut() {
                Some(last) if last.0 + last.1 == i => last.1 += 1,
                _ => v.push((i, 1)),
            }
            v
        },
        |mut a: Vec<(usize, usize)>, b: Vec<(usize, usize)>| {
            a.extend(b);
            a
        },
    );
    assert_eq!(runs, vec![(0, 4), (4, 4), (8, 2)]);
}

#[test]
fn an_integer_sum_is_the_same_for_every_piece_count() {
    for pieces in [0, 1, 3, 64, 1000] {
        let s = fold(500, pieces, || 0u64, |a, i| a + i as u64, |a, b| a + b);
        assert_eq!(s, 499 * 500 / 2);
    }
}

#[test]
fn a_counting_fold_makes_one_accumulator_per_piece() {
    for (len, pieces, want) in [(10usize, 4usize, 4usize), (10, 3, 3), (3, 8, 3), (7, 0, 1), (9, 2, 2)] {
        let made = fold(len, pieces, || 1usize, |a, _| a, |a, b| a + b);
        assert_eq!(made, want, "len {len}, pieces {pieces}");
    }
}

/// A sum whose grouping shows in its last digits comes out the same on one
/// thread as on several.
#[test]
fn the_thread_count_does_not_change_the_result() {
    let sum = || {
        fold(
            10_000,
            64,
            || 0.0f64,
            |s, i| s + (i as f64).sqrt().sin(),
            |a, b| a + b,
        )
    };
    let on = |threads: usize| {
        rayon::ThreadPoolBuilder::new()
            .num_threads(threads)
            .build()
            .unwrap()
            .install(sum)
    };
    let one = on(1);
    for threads in [2, 3, 8] {
        assert_eq!(one.to_bits(), on(threads).to_bits(), "{threads} threads");
    }
}

/// The same with integers whose sum wraps, so that a different grouping
/// could not go unseen either.
#[test]
fn the_thread_count_does_not_change_an_integer_result() {
    let mix = || {
        fold(
            10_000,
            64,
            || 0u64,
            |s, i| s.wrapping_mul(31).wrapping_add(i as u64),
            |a, b| a.wrapping_mul(1_000_003).wrapping_add(b),
        )
    };
    let on = |threads: usize| {
        rayon::ThreadPoolBuilder::new()
            .num_threads(threads)
            .build()
            .unwrap()
            .install(mix)
    };
    let one = on(1);
    for threads in [2, 3, 8] {
        assert_eq!(one, on(threads), "{threads} threads");
    }
}
