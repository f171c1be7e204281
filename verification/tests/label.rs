use ariadnetor::label::{LabelId, LabelInterner};

#[test]
fn test_intern_idempotent() {
    let mut interner = LabelInterner::new();
    let id1 = LabelId::intern(&mut interner, "i");
    let id2 = LabelId::intern(&mut interner, "i");
    assert_eq!(id1, id2);
}

#[test]
fn test_prime_operations() {
    let mut interner = LabelInterner::new();
    let i = LabelId::intern(&mut interner, "test_i");
    let p = i.prime(&mut interner);
    assert_eq!(p.name(&interner), "test_i'");
    let pp = i.primes(&mut interner, 2);
    assert_eq!(pp.name(&interner), "test_i''");
}

#[test]
fn test_fresh_unique() {
    let mut interner = LabelInterner::new();
    let f1 = LabelId::fresh(&mut interner);
    let f2 = LabelId::fresh(&mut interner);
    assert_ne!(f1, f2);
}

#[test]
fn intern_returns_name() {
    let mut interner = LabelInterner::new();
    let a = LabelId::intern(&mut interner, "alpha");
    let b = LabelId::intern(&mut interner, "beta");
    assert_ne!(a, b);
    assert_eq!(a.name(&interner), "alpha");
    assert_eq!(b.name(&interner), "beta");
    assert_eq!(interner.next_id(), 3);
}

#[test]
fn fresh_names_after_its_id() {
    let mut interner = LabelInterner::new();
    let _a = LabelId::intern(&mut interner, "a");
    let f = LabelId::fresh(&mut interner);
    assert_eq!(f.name(&interner), "_tmp_2");
    // The fresh name interns back to the fresh label.
    assert_eq!(LabelId::intern(&mut interner, "_tmp_2"), f);
}

#[test]
fn unknown_label_name() {
    let mut other = LabelInterner::new();
    for _ in 0..12 {
        LabelId::fresh(&mut other);
    }
    let late = LabelId::fresh(&mut other);
    let empty = LabelInterner::new();
    assert_eq!(late.name(&empty), "<unknown:13>");
}

#[test]
fn unprime_undoes_prime() {
    let mut interner = LabelInterner::new();
    let x = LabelId::intern(&mut interner, "x");
    let p = x.prime(&mut interner);
    assert_eq!(p.unprime(&mut interner), x);
    // Without a trailing mark, unprime is the identity.
    assert_eq!(x.unprime(&mut interner), x);
}

#[test]
fn base_strips_all_marks() {
    let mut interner = LabelInterner::new();
    let x = LabelId::intern(&mut interner, "x");
    let p3 = x.primes(&mut interner, 3);
    assert_eq!(p3.name(&interner), "x'''");
    assert_eq!(p3.base(&mut interner), x);
    assert_eq!(x.primes(&mut interner, 0), x);
}

#[test]
fn primes_is_interning_with_marks() {
    let mut interner = LabelInterner::new();
    let x = LabelId::intern(&mut interner, "test_i");
    let pp = x.primes(&mut interner, 2);
    assert_eq!(pp, LabelId::intern(&mut interner, "test_i''"));
    assert_eq!(x.primes(&mut interner, 1), x.prime(&mut interner));
    assert_eq!(x.primes(&mut interner, 0), x);
}

#[test]
fn base_is_idempotent() {
    let mut interner = LabelInterner::new();
    let x = LabelId::intern(&mut interner, "k''");
    let b = x.base(&mut interner);
    assert_eq!(b.name(&interner), "k");
    assert_eq!(b.base(&mut interner), b);
    assert_eq!(x.primes(&mut interner, 3).base(&mut interner), b);
}

#[test]
fn distinct_names_get_distinct_labels() {
    let mut it = LabelInterner::new();
    let a = LabelId::intern(&mut it, "left");
    let b = LabelId::intern(&mut it, "right");
    let c = LabelId::intern(&mut it, "left");
    assert_ne!(a, b);
    assert_eq!(a, c);
    assert_eq!(b.name(&it), "right");
}
