use wfst::random::{rng_from_seed, RandomWeight, RandomWeightGenerator, GEN_BOUND};
use wfst::semiring::Weight;
use wfst::weights::{MinmaxWeight, TropicalWeight};

#[test]
fn same_seed_same_weights() {
    let mut a = rng_from_seed([7u8; 32]);
    let mut b = rng_from_seed([7u8; 32]);
    for _ in 0..32 {
        let wa: TropicalWeight = a.genweight(true);
        let wb: TropicalWeight = b.genweight(true);
        assert!(wa.same(&wb));
    }
}

#[test]
fn generated_weights_are_members() {
    let mut rng = rng_from_seed([1u8; 32]);
    for _ in 0..64 {
        let w: TropicalWeight = rng.genweight(true);
        assert!(w.is_member());
        let w: MinmaxWeight = rng.genweight(false);
        assert!(w.is_member());
        // without zero mixed in, the draw is a small natural
        assert!(!w.eq_weight(&MinmaxWeight::zero()));
    }
}

#[test]
fn from_u32_embeds_naturals() {
    let w = TropicalWeight::from_u32(3);
    assert!(w.is_member());
    assert!(w.eq_weight(&TropicalWeight::new(Some(wfst::num::Num::Finite(3)))));
    assert!(GEN_BOUND > 0);
}

#[test]
fn draws_stay_below_the_bound_and_vary() {
    let mut rng = rng_from_seed([3u8; 32]);
    let mut seen = Vec::new();
    for _ in 0..100 {
        let w: TropicalWeight = rng.genweight(false);
        match w.val {
            Some(wfst::num::Num::Finite(v)) => {
                assert!(0 <= v && v < GEN_BOUND as i64);
                if !seen.contains(&v) {
                    seen.push(v);
                }
            },
            _ => panic!("a draw without zero must be a small natural"),
        }
    }
    assert!(seen.len() > 1);
}

#[test]
fn random_laws_hold_on_draws() {
    let mut rng = rng_from_seed([9u8; 32]);
    for _ in 0..200 {
        let a: TropicalWeight = rng.genweight(true);
        let b: TropicalWeight = rng.genweight(true);
        let c: TropicalWeight = rng.genweight(true);
        assert!(a.plus(&b).is_member());
        assert!(a.times(&b).is_member());
        assert!(a.plus(&b.plus(&c)).eq_weight(&a.plus(&b).plus(&c)));
        assert!(a.times(&b.times(&c)).eq_weight(&a.times(&b).times(&c)));
        assert!(a.plus(&b).eq_weight(&b.plus(&a)));
        assert!(a.times(&b).eq_weight(&b.times(&a)));
        assert!(a.times(&b.plus(&c)).eq_weight(&a.times(&b).plus(&a.times(&c))));
        assert!(a.plus(&a).eq_weight(&a));
        let s = a.plus(&b);
        assert!(s.eq_weight(&a) || s.eq_weight(&b));
    }
}
