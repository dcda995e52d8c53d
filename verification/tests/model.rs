use arbgraph::model::{swap_out, Token};

fn tok(n: u64) -> Token {
    Token { hi: n, mid: 0, lo: 0 }
}

#[test]
fn swap_out_exact_value() {
    // 1000 in, reserves 10000/10000, 30 bps fee:
    // floor(1000*9970*10000 / (10000*10000 + 1000*9970)) = floor(99.7e9 / 109.97e6)
    assert_eq!(swap_out(1000, 10_000, 10_000, 30), 906);
}

#[test]
fn swap_out_zero_input_gives_zero() {
    assert_eq!(swap_out(0, 10_000, 10_000, 30), 0);
}

#[test]
fn swap_out_monotone_in_amount() {
    let mut prev = 0u64;
    for a in [1u64, 10, 100, 1_000, 10_000, 100_000, 1_000_000] {
        let out = swap_out(a, 1_000_000, 1_000_000, 25);
        assert!(out >= prev, "output decreased as input grew");
        prev = out;
    }
}

#[test]
fn swap_out_never_drains_reserve() {
    // even an enormous input cannot take the whole output reserve
    let out = swap_out(1 << 56, 1, 1_000, 0);
    assert!(out < 1_000);
    let out2 = swap_out(1 << 56, 1_000_000, 1_000_000, 9999);
    assert!(out2 < 1_000_000);
}

#[test]
fn token_equality_is_by_value() {
    assert_eq!(tok(7), tok(7));
    assert_ne!(tok(7), tok(8));
}
