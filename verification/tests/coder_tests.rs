use divans::coder::{put_nibble, get_nibble, BlendCDF16, FrequentistCDF16, Speed, CDF16};

fn test_get_prob<C: CDF16>(cdf: &C, prob_start: u8, prob_mid: u8, prob_end: u8) -> u8 {
    let hi;
    if prob_end == 16 {
        hi = cdf.max() as i64;
    } else {
        hi = cdf.cdf(prob_end as u8 - 1) as i64;
    }
    let lo;
    if prob_start == 0 {
        lo = 0;
    } else {
        lo = cdf.cdf(prob_start as u8 - 1) as i64;
    }
    let mid = cdf.cdf(prob_mid as u8 - 1) as i64;
    (((mid - lo) << 8) / (hi - lo)) as u8
}

fn validate_call_to_put<C: CDF16>(calls: [(bool, u8); 4], cdf: &C, sym: u8) {
    for i in 0..4 {
        if calls[i].0 {
            assert_eq!(sym & (1 << (3 - i)), (1 << (3 - i)));
        } else {
            assert_eq!(sym & (1 << (3 - i)), 0);
        }
    }
    let hi_prob = test_get_prob(cdf, 0, 8, 16);
    let himed_prob = test_get_prob(cdf, sym & 8, (sym & 8) + 4, (sym & 8) + 8);
    let lomed_prob = test_get_prob(cdf, sym & 12, (sym & 12) + 2, (sym & 12) + 4);
    let lo_prob = test_get_prob(cdf, sym & 14, (sym & 14) + 1, (sym & 14) + 2);
    assert_eq!(calls[0].1, hi_prob);
    assert_eq!(calls[1].1, himed_prob);
    assert_eq!(calls[2].1, lomed_prob);
    assert_eq!(calls[3].1, lo_prob);
}

#[test]
fn test_put_nibble() {
    let mut cdf = FrequentistCDF16::default_table();
    let mut bcdf = BlendCDF16::default_table();
    for i in 0..16 {
        for j in 0..i {
            cdf.blend(j as u8, Speed::MED);
            bcdf.blend(j as u8, Speed::MED);
        }
    }
    let mut calls_to_put_bit = [[(false, 0u8); 4]; 16];
    for i in 0..16 {
        let (bits, probs) = put_nibble(i as u8, &cdf);
        for k in 0..4 {
            calls_to_put_bit[i][k] = (bits[k], probs[k]);
        }
    }
    for i in 0..16 {
        validate_call_to_put(calls_to_put_bit[i], &cdf, i as u8);
    }
    let mut bcalls = [[(false, 0u8); 4]; 16];
    for i in 0..16 {
        let (bits, probs) = put_nibble(i as u8, &bcdf);
        for k in 0..4 {
            bcalls[i][k] = (bits[k], probs[k]);
        }
    }
    for i in 0..16 {
        validate_call_to_put(bcalls[i], &bcdf, i as u8);
    }
}

#[test]
fn test_get_nibble() {
    let mut cdf = FrequentistCDF16::default_table();
    let mut bcdf = BlendCDF16::default_table();
    for i in 0..16 {
        for j in 0..i {
            cdf.blend(j as u8, Speed::MED);
            bcdf.blend(j as u8, Speed::MED);
        }
    }
    let mut calls_to_put_bit = [[(false, 0u8); 4]; 16];
    for i in 0..16usize {
        calls_to_put_bit[i][0].0 = (i & 8) != 0;
        calls_to_put_bit[i][1].0 = (i & 4) != 0;
        calls_to_put_bit[i][2].0 = (i & 2) != 0;
        calls_to_put_bit[i][3].0 = (i & 1) != 0;
    }
    for i in 0..16 {
        let bits = [
            calls_to_put_bit[i][0].0,
            calls_to_put_bit[i][1].0,
            calls_to_put_bit[i][2].0,
            calls_to_put_bit[i][3].0,
        ];
        let (nib, probs) = get_nibble(bits, &cdf);
        assert_eq!(nib, i as u8);
        for k in 0..4 {
            calls_to_put_bit[i][k].1 = probs[k];
        }
    }
    for i in 0..16 {
        validate_call_to_put(calls_to_put_bit[i], &cdf, i as u8);
    }
    for i in 0..16usize {
        calls_to_put_bit[i][0] = ((i & 8) != 0, 0);
        calls_to_put_bit[i][1] = ((i & 4) != 0, 0);
        calls_to_put_bit[i][2] = ((i & 2) != 0, 0);
        calls_to_put_bit[i][3] = ((i & 1) != 0, 0);
    }
    for i in 0..16 {
        let bits = [
            calls_to_put_bit[i][0].0,
            calls_to_put_bit[i][1].0,
            calls_to_put_bit[i][2].0,
            calls_to_put_bit[i][3].0,
        ];
        let (nib, probs) = get_nibble(bits, &bcdf);
        assert_eq!(nib, i as u8);
        for k in 0..4 {
            calls_to_put_bit[i][k].1 = probs[k];
        }
    }
    for i in 0..16 {
        validate_call_to_put(calls_to_put_bit[i], &bcdf, i as u8);
    }
}

#[test]
fn nibble_round_trip_all_symbols() {
    let cdf = FrequentistCDF16::default_table();
    for n in 0..16u8 {
        let (bits, put_probs) = put_nibble(n, &cdf);
        let (decoded, get_probs) = get_nibble(bits, &cdf);
        assert_eq!(decoded, n);
        assert_eq!(put_probs, get_probs);
    }
}
