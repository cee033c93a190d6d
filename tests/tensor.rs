use gptbpe::tensor::Tensor;

#[test]
fn unit_scale() {
    let data = [1, 2, 3, 4, 5];
    let t: Tensor<i8> = Tensor::from(&data.to_vec());
    for scale in [3, 6, 9, 12] {
        let s = data.to_vec().iter().map(|datum| datum * scale).collect();
        let scaled = Tensor::from(&s);
        assert_eq!(t.clone() * &scale, scaled);
    }
}

#[test]
fn unit_zero_negation() {
    let t: Tensor<i8> = Tensor::from(&vec![1, 2, 3]);
    assert_eq!(t.clone() + &0, t.clone());
    assert_eq!(t.clone() + &(t.clone() * &-1), 0);
}

#[test]
fn unit_distribution() {
    let t: Tensor<i8> = Tensor::from(&vec![1, 2, 3]);
    let s = t.clone();
    assert_eq!((t.clone() + &s) * &3, t * &3 + &(s * &3));
}

#[test]
fn unit_associative_addition() {
    let t: Tensor<i8> = Tensor::from(&vec![1, 2, 3]);
    let s = t.clone();
    let r = s.clone();
    assert_eq!((t.clone() + &s) + &r, t + &(s + &r));
}

#[test]
fn unit_commutative_addition() {
    let t: Tensor<i8> = Tensor::from(&vec![1, 2, 3]);
    let s = t.clone();
    assert_eq!(t.clone() + &s, s + &t);
}

#[test]
fn unit_addition() {
    let a: i8 = -37;
    let t: Tensor<i8> = Tensor::from(&vec![3, 4, 5, 6]);
    assert_eq!(t, t.clone());
    let s = t.clone() - &a;
    assert_eq!(s.clone() + &a, t);
    let r = s.clone() + &t;
    assert_eq!(r - &s, t);
}

#[test]
fn overflow_wraps() {
    let t: Tensor<i8> = Tensor::from(&vec![127, -128]);
    assert_eq!(t.clone() + &1, Tensor::from(&vec![-128, -127]));
    assert_eq!(t * &2, Tensor::from(&vec![-2, 0]));
}

#[test]
fn shapes_must_agree_to_add() {
    let t: Tensor<i8> = Tensor::from(&vec![1, 2, 3]);
    let u: Tensor<i8> = Tensor::from(&vec![1, 2]);
    assert_eq!(t.clone() + &u, t);
    assert_eq!(Tensor::new().data.len(), 0);
}
