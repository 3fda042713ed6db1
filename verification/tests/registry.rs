use satsight::cnf::Var;
use satsight::registry::Registry;

#[test]
fn var_is_stable_and_dense() {
    let mut reg: Registry<&str> = Registry::new();
    let a = reg.var("a");
    let b = reg.var("b");
    assert_eq!(reg.var("a"), a);
    assert_ne!(a, b);
    assert_eq!(a.idx(), 0);
    assert_eq!(b.idx(), 1);
    assert_eq!(reg.len(), 2);
}

#[test]
fn decode_round_trips_polarity() {
    let mut reg: Registry<u32> = Registry::new();
    let v = reg.var(42);
    assert_eq!(reg.decode(v.pos_lit()), Some((42, true)));
    assert_eq!(reg.decode(v.neg_lit()), Some((42, false)));
}

#[test]
fn decode_of_unknown_var_is_none() {
    let reg: Registry<u32> = Registry::new();
    let stray = Var::new(7);
    assert_eq!(reg.decode_var(stray), None);
    assert_eq!(reg.decode(stray.pos_lit()), None);
}

#[test]
fn lit_and_get_agree_with_var() {
    let mut reg: Registry<u32> = Registry::new();
    let x = reg.lit(5, false);
    assert!(!x.is_pos());
    let v = reg.get(&5).expect("registered");
    assert_eq!(x.var(), v);
    assert_eq!(reg.get(&6), None);
    assert!(!reg.is_empty());
    let copy = reg.clone();
    assert_eq!(copy.len(), 1);
    assert_eq!(copy.decode(v.pos_lit()), Some((5, true)));
}
