use ossia::{Bounding, Domain, Float, Type, Value};

fn f(x: f32) -> Float {
    Float::from_bits(x.to_bits())
}

fn zero_to_ten() -> Domain {
    Domain::range(Value::Int(0), Value::Int(10))
}

#[test]
fn clip_saturates_at_the_bounds() {
    let d = zero_to_ten();
    assert_eq!(d.apply(&Value::Int(15), Bounding::Clip), Value::Int(10));
    assert_eq!(d.apply(&Value::Int(-3), Bounding::Clip), Value::Int(0));
    assert_eq!(d.apply(&Value::Int(7), Bounding::Clip), Value::Int(7));
    assert_eq!(d.apply(&Value::Int(0), Bounding::Clip), Value::Int(0));
    assert_eq!(d.apply(&Value::Int(10), Bounding::Clip), Value::Int(10));
}

#[test]
fn wrap_is_modular() {
    let d = zero_to_ten();
    assert_eq!(d.apply(&Value::Int(15), Bounding::Wrap), Value::Int(5));
    assert_eq!(d.apply(&Value::Int(-1), Bounding::Wrap), Value::Int(9));
    assert_eq!(d.apply(&Value::Int(20), Bounding::Wrap), Value::Int(0));
    assert_eq!(d.apply(&Value::Int(10), Bounding::Wrap), Value::Int(10));
    assert_eq!(d.apply(&Value::Int(3), Bounding::Wrap), Value::Int(3));
    assert_eq!(d.apply(&Value::Int(-25), Bounding::Wrap), Value::Int(5));
}

#[test]
fn fold_reflects() {
    let d = zero_to_ten();
    assert_eq!(d.apply(&Value::Int(15), Bounding::Fold), Value::Int(5));
    assert_eq!(d.apply(&Value::Int(-3), Bounding::Fold), Value::Int(3));
    assert_eq!(d.apply(&Value::Int(25), Bounding::Fold), Value::Int(5));
    assert_eq!(d.apply(&Value::Int(20), Bounding::Fold), Value::Int(0));
    assert_eq!(d.apply(&Value::Int(10), Bounding::Fold), Value::Int(10));
    assert_eq!(d.apply(&Value::Int(4), Bounding::Fold), Value::Int(4));
}

#[test]
fn low_and_high_hold_one_bound() {
    let d = zero_to_ten();
    assert_eq!(d.apply(&Value::Int(-5), Bounding::Low), Value::Int(0));
    assert_eq!(d.apply(&Value::Int(15), Bounding::Low), Value::Int(15));
    assert_eq!(d.apply(&Value::Int(15), Bounding::High), Value::Int(10));
    assert_eq!(d.apply(&Value::Int(-5), Bounding::High), Value::Int(-5));
}

#[test]
fn free_passes_everything() {
    let d = zero_to_ten();
    assert_eq!(d.apply(&Value::Int(15), Bounding::Free), Value::Int(15));
    assert_eq!(d.apply(&Value::Int(-15), Bounding::Free), Value::Int(-15));
}

#[test]
fn an_empty_domain_constrains_nothing() {
    let d = Domain::new();
    for mode in [Bounding::Free, Bounding::Clip, Bounding::Wrap, Bounding::Fold, Bounding::Low, Bounding::High] {
        assert_eq!(d.apply(&Value::Int(15), mode), Value::Int(15));
        assert_eq!(d.apply(&Value::string("x"), mode), Value::string("x"));
    }
}

#[test]
fn extreme_integers_do_not_overflow() {
    let d = Domain::range(Value::Int(i32::MIN), Value::Int(i32::MAX));
    assert_eq!(d.apply(&Value::Int(i32::MAX), Bounding::Wrap), Value::Int(i32::MAX));
    let narrow = Domain::range(Value::Int(i32::MAX - 1), Value::Int(i32::MAX));
    assert_eq!(narrow.apply(&Value::Int(i32::MIN), Bounding::Wrap), Value::Int(i32::MAX - 1));
    assert_eq!(narrow.apply(&Value::Int(i32::MIN), Bounding::Fold), Value::Int(i32::MAX - 1));
    assert_eq!(narrow.apply(&Value::Int(i32::MIN), Bounding::Clip), Value::Int(i32::MAX - 1));
}

#[test]
fn characters_are_bounded_by_their_codes() {
    let d = Domain::range(Value::Char(b'a'), Value::Char(b'z'));
    assert_eq!(d.apply(&Value::Char(b'A'), Bounding::Clip), Value::Char(b'a'));
    assert_eq!(d.apply(&Value::Char(b'~'), Bounding::Clip), Value::Char(b'z'));
    assert_eq!(d.apply(&Value::Char(b'{'), Bounding::Wrap), Value::Char(b'b'));
}

#[test]
fn floats_saturate_by_order() {
    let d = Domain::range(Value::Float(f(0.0)), Value::Float(f(1.0)));
    assert_eq!(d.apply(&Value::Float(f(1.5)), Bounding::Clip), Value::Float(f(1.0)));
    assert_eq!(d.apply(&Value::Float(f(-0.5)), Bounding::Clip), Value::Float(f(0.0)));
    assert_eq!(d.apply(&Value::Float(f(0.25)), Bounding::Clip), Value::Float(f(0.25)));
    assert_eq!(d.apply(&Value::Float(f(1.5)), Bounding::Low), Value::Float(f(1.5)));
    assert_eq!(d.apply(&Value::Float(f(1.5)), Bounding::High), Value::Float(f(1.0)));
    assert_eq!(d.apply(&Value::Float(f(1.5)), Bounding::Free), Value::Float(f(1.5)));
    assert_eq!(d.apply(&Value::Float(f(f32::INFINITY)), Bounding::Clip), Value::Float(f(1.0)));
    let nan = Value::Float(f(f32::NAN));
    assert_eq!(d.apply(&nan, Bounding::Clip), nan);
}

#[test]
fn floats_wrap_and_fold_exactly() {
    let d = Domain::range(Value::Float(f(0.0)), Value::Float(f(1.0)));
    assert_eq!(d.apply(&Value::Float(f(1.5)), Bounding::Wrap), Value::Float(f(0.5)));
    assert_eq!(d.apply(&Value::Float(f(-0.25)), Bounding::Wrap), Value::Float(f(0.75)));
    assert_eq!(d.apply(&Value::Float(f(3.0)), Bounding::Wrap), Value::Float(f(0.0)));
    assert_eq!(d.apply(&Value::Float(f(1.0)), Bounding::Wrap), Value::Float(f(1.0)));
    assert_eq!(d.apply(&Value::Float(f(0.25)), Bounding::Wrap), Value::Float(f(0.25)));
    assert_eq!(d.apply(&Value::Float(f(1.5)), Bounding::Fold), Value::Float(f(0.5)));
    assert_eq!(d.apply(&Value::Float(f(-0.25)), Bounding::Fold), Value::Float(f(0.25)));
    assert_eq!(d.apply(&Value::Float(f(-2.0)), Bounding::Fold), Value::Float(f(0.0)));
    assert_eq!(d.apply(&Value::Float(f(2.75)), Bounding::Fold), Value::Float(f(0.75)));
    assert_eq!(d.apply(&Value::Float(f(3.25)), Bounding::Fold), Value::Float(f(0.75)));
    let around_zero = Domain::range(Value::Float(f(-1.0)), Value::Float(f(1.0)));
    assert_eq!(around_zero.apply(&Value::Float(f(1.5)), Bounding::Wrap), Value::Float(f(-0.5)));
    assert_eq!(around_zero.apply(&Value::Float(f(-1.25)), Bounding::Wrap), Value::Float(f(0.75)));
    assert_eq!(around_zero.apply(&Value::Float(f(1.5)), Bounding::Fold), Value::Float(f(0.5)));
    assert_eq!(around_zero.apply(&Value::Float(f(-3.5)), Bounding::Fold), Value::Float(f(0.5)));
    let below_zero = Domain::range(Value::Float(f(-10.0)), Value::Float(f(-2.0)));
    assert_eq!(below_zero.apply(&Value::Float(f(0.0)), Bounding::Wrap), Value::Float(f(-8.0)));
    assert_eq!(below_zero.apply(&Value::Float(f(1.0)), Bounding::Fold), Value::Float(f(-5.0)));
}

#[test]
fn float_wrapping_rounds_once() {
    let cases: [(f32, f32, f32); 12] = [
        (0.0, 1.0, 1e10),
        (0.0, 1.0, -1e10),
        (0.1, 0.7, 123.456),
        (0.1, 0.7, -123.456),
        (-3.3, 9.9, 1e6),
        (1e-3, 2e-3, 5.0),
        (1e-20, 3e-20, 1.0),
        (-1e20, 1e20, 3e38),
        (0.0, 1e-40, 1e-38),
        (100.0, 100.5, 3.25),
        (-0.3, 0.3, 7.7),
        (1.0, 3.0, -16777217.0),
    ];
    for (lo, hi, v) in cases {
        let d = Domain::range(Value::Float(f(lo)), Value::Float(f(hi)));
        let (l, h, x) = (lo as f64, hi as f64, v as f64);
        let wrapped = l + (x - l).rem_euclid(h - l);
        let r = (x - l).rem_euclid(2.0 * (h - l));
        let folded = if r <= h - l { l + r } else { h - (r - (h - l)) };
        if (x - l).abs() < 1e15 * (h - l) && (h - l) > 1e-30 {
            assert_eq!(
                d.apply(&Value::Float(f(v)), Bounding::Wrap),
                Value::Float(f(wrapped as f32)),
                "wrapping {} into {}..{}",
                v,
                lo,
                hi
            );
            assert_eq!(
                d.apply(&Value::Float(f(v)), Bounding::Fold),
                Value::Float(f(folded as f32)),
                "folding {} into {}..{}",
                v,
                lo,
                hi
            );
        }
        for mode in [Bounding::Wrap, Bounding::Fold] {
            match d.apply(&Value::Float(f(v)), mode) {
                Value::Float(out) => {
                    let out = f32::from_bits(out.to_bits());
                    assert!(lo <= out && out <= hi, "{} into {}..{} gave {}", v, lo, hi, out);
                }
                other => panic!("a float turned into {:?}", other),
            }
        }
    }
}

#[test]
fn floats_that_cannot_move_stay() {
    let d = Domain::range(Value::Float(f(0.0)), Value::Float(f(1.0)));
    let inf = Value::Float(f(f32::INFINITY));
    let nan = Value::Float(f(f32::NAN));
    assert_eq!(d.apply(&inf, Bounding::Wrap), inf);
    assert_eq!(d.apply(&nan, Bounding::Fold), nan);
    let open = Domain::range(Value::Float(f(0.0)), Value::Float(f(f32::INFINITY)));
    assert_eq!(open.apply(&Value::Float(f(-1.0)), Bounding::Wrap), Value::Float(f(-1.0)));
    let inverted = Domain::range(Value::Float(f(1.0)), Value::Float(f(0.0)));
    assert_eq!(inverted.apply(&Value::Float(f(5.0)), Bounding::Wrap), Value::Float(f(5.0)));
    let mut half = Domain::new();
    half.set_min(Value::Float(f(0.0)));
    assert_eq!(half.apply(&Value::Float(f(-1.0)), Bounding::Fold), Value::Float(f(-1.0)));
    assert_eq!(half.apply(&Value::Float(f(-1.0)), Bounding::Clip), Value::Float(f(0.0)));
}

#[test]
fn vectors_are_bounded_by_component() {
    let d = Domain::range(Value::Vec2f(f(0.0), f(-1.0)), Value::Vec2f(f(1.0), f(1.0)));
    assert_eq!(
        d.apply(&Value::Vec2f(f(2.0), f(-3.0)), Bounding::Clip),
        Value::Vec2f(f(1.0), f(-1.0))
    );
}

#[test]
fn a_bound_of_another_type_does_not_apply() {
    let d = Domain::range(Value::Float(f(0.0)), Value::Float(f(1.0)));
    assert_eq!(d.apply(&Value::Int(15), Bounding::Clip), Value::Int(15));
}

#[test]
fn bounds_and_values_are_kept() {
    let mut d = Domain::new();
    assert_eq!(d.min(), None);
    assert_eq!(d.max(), None);
    assert_eq!(d.values(), Vec::new());
    d.set_min(Value::Int(1));
    d.set_max(Value::Int(9));
    d.set_values(&[Value::Int(2), Value::Int(4)]);
    assert_eq!(d.min(), Some(Value::Int(1)));
    assert_eq!(d.max(), Some(Value::Int(9)));
    assert_eq!(d.values(), vec![Value::Int(2), Value::Int(4)]);
    assert_eq!(d.clone(), d);
}

#[test]
fn sets_are_built_from_their_elements() {
    assert_eq!(Domain::ints(&[1, 2]).values(), vec![Value::Int(1), Value::Int(2)]);
    assert_eq!(Domain::floats(&[f(0.5)]).values(), vec![Value::Float(f(0.5))]);
    assert_eq!(Domain::strings(&["a", "b"]).values(), vec![Value::string("a"), Value::string("b")]);
    assert_eq!(Domain::of_values(&[Value::Bool(true)]).values(), vec![Value::Bool(true)]);
    assert_eq!(Domain::ints(&[1, 2]).apply(&Value::Int(7), Bounding::Clip), Value::Int(7));
}

#[test]
fn a_domain_fits_the_type_of_all_it_holds() {
    assert!(zero_to_ten().fits(Type::Int));
    assert!(!zero_to_ten().fits(Type::Float));
    assert!(Domain::new().fits(Type::String));
    assert!(!Domain::range(Value::Int(0), Value::Float(f(1.0))).fits(Type::Int));
    assert!(!Domain::of_values(&[Value::Int(0), Value::Bool(true)]).fits(Type::Int));
}

#[test]
fn bounding_codes() {
    let all = [Bounding::Free, Bounding::Clip, Bounding::Wrap, Bounding::Fold, Bounding::Low, Bounding::High];
    for (i, m) in all.iter().enumerate() {
        assert_eq!(m.repr(), i as i32);
        assert_eq!(Bounding::from_repr(i as i32), Some(*m));
    }
    assert_eq!(Bounding::from_repr(6), None);
}

#[test]
fn wrap_and_fold_need_a_proper_range() {
    let half = {
        let mut d = Domain::new();
        d.set_min(Value::Int(0));
        d
    };
    assert_eq!(half.apply(&Value::Int(15), Bounding::Wrap), Value::Int(15));
    assert_eq!(half.apply(&Value::Int(-5), Bounding::Fold), Value::Int(-5));
    assert_eq!(half.apply(&Value::Int(-5), Bounding::Clip), Value::Int(0));
    let inverted = Domain::range(Value::Int(10), Value::Int(0));
    assert_eq!(inverted.apply(&Value::Int(15), Bounding::Wrap), Value::Int(15));
    let point = Domain::range(Value::Int(3), Value::Int(3));
    assert_eq!(point.apply(&Value::Int(15), Bounding::Fold), Value::Int(15));
    assert_eq!(point.apply(&Value::Int(15), Bounding::Clip), Value::Int(3));
}
