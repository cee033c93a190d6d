//! A small tensor of 8-bit integers with element-wise arithmetic.
//!
//! Arithmetic wraps around on overflow, element by element.
use vstd::prelude::*;

verus! {

/// A tensor: its shape and its elements in row-major order.
#[derive(Debug, Clone)]
pub struct Tensor<T> {
    pub shape: Vec<usize>,
    pub data: Vec<T>,
}

impl Tensor<i8> {
    /// An empty vector.
    pub fn new() -> (r: Tensor<i8>)
        ensures
            r.data@.len() == 0,
            r.shape@ == seq![0usize],
    {
        Tensor { shape: vec![0], data: Vec::new() }
    }

    /// A vector holding `data`.
    pub fn from(data: &Vec<i8>) -> (r: Tensor<i8>)
        ensures
            r.data@ == data@,
            r.shape@ == seq![data@.len() as usize],
    {
        let mut copy: Vec<i8> = Vec::new();
        let mut i: usize = 0;
        while i < data.len()
            invariant
                i <= data@.len(),
                copy@ == data@.subrange(0, i as int),
            decreases data@.len() - i,
        {
            copy.push(data[i]);
            i = i + 1;
            assert(copy@ =~= data@.subrange(0, i as int));
        }
        assert(data@.subrange(0, i as int) =~= data@);
        Tensor { shape: vec![data.len()], data: copy }
    }

    /// `k` added to every element.
    pub fn add_scalar(self, k: i8) -> (r: Tensor<i8>)
        ensures
            r.shape@ == self.shape@,
            r.data@.len() == self.data@.len(),
            forall|i: int| 0 <= i < r.data@.len() ==> #[trigger] r.data@[i] == self.data@[i].wrapping_add(k),
    {
        let mut t = self;
        let mut i: usize = 0;
        while i < t.data.len()
            invariant
                i <= t.data@.len(),
                t.shape@ == self.shape@,
                t.data@.len() == self.data@.len(),
                forall|j: int| 0 <= j < i ==> #[trigger] t.data@[j] == self.data@[j].wrapping_add(k),
                forall|j: int| i <= j < t.data@.len() ==> #[trigger] t.data@[j] == self.data@[j],
            decreases t.data@.len() - i,
        {
            let x = t.data[i].wrapping_add(k);
            t.data.set(i, x);
            i = i + 1;
        }
        t
    }

    /// `k` taken from every element.
    pub fn sub_scalar(self, k: i8) -> (r: Tensor<i8>)
        ensures
            r.shape@ == self.shape@,
            r.data@.len() == self.data@.len(),
            forall|i: int| 0 <= i < r.data@.len() ==> #[trigger] r.data@[i] == self.data@[i].wrapping_sub(k),
    {
        let mut t = self;
        let mut i: usize = 0;
        while i < t.data.len()
            invariant
                i <= t.data@.len(),
                t.shape@ == self.shape@,
                t.data@.len() == self.data@.len(),
                forall|j: int| 0 <= j < i ==> #[trigger] t.data@[j] == self.data@[j].wrapping_sub(k),
                forall|j: int| i <= j < t.data@.len() ==> #[trigger] t.data@[j] == self.data@[j],
            decreases t.data@.len() - i,
        {
            let x = t.data[i].wrapping_sub(k);
            t.data.set(i, x);
            i = i + 1;
        }
        t
    }

    /// Every element multiplied by `k`.
    pub fn scale(self, k: i8) -> (r: Tensor<i8>)
        ensures
            r.shape@ == self.shape@,
            r.data@.len() == self.data@.len(),
            forall|i: int| 0 <= i < r.data@.len() ==> #[trigger] r.data@[i] == self.data@[i].wrapping_mul(k),
    {
        let mut t = self;
        let mut i: usize = 0;
        while i < t.data.len()
            invariant
                i <= t.data@.len(),
                t.shape@ == self.shape@,
                t.data@.len() == self.data@.len(),
                forall|j: int| 0 <= j < i ==> #[trigger] t.data@[j] == self.data@[j].wrapping_mul(k),
                forall|j: int| i <= j < t.data@.len() ==> #[trigger] t.data@[j] == self.data@[j],
            decreases t.data@.len() - i,
        {
            let x = t.data[i].wrapping_mul(k);
            t.data.set(i, x);
            i = i + 1;
        }
        t
    }

    /// The element-wise sum; where the shapes differ, `self` unchanged.
    pub fn add_tensor(self, other: &Tensor<i8>) -> (r: Tensor<i8>)
        ensures
            r.shape@ == self.shape@,
            r.data@.len() == self.data@.len(),
            (self.shape@ == other.shape@ && self.data@.len() == other.data@.len()) ==> forall|i: int|
                0 <= i < r.data@.len() ==> #[trigger] r.data@[i] == self.data@[i].wrapping_add(other.data@[i]),
            !(self.shape@ == other.shape@ && self.data@.len() == other.data@.len()) ==> r.data@ == self.data@,
    {
        if !same_shape(&self, other) {
            return self;
        }
        let mut t = self;
        let mut i: usize = 0;
        while i < t.data.len()
            invariant
                i <= t.data@.len(),
                t.shape@ == self.shape@,
                t.data@.len() == self.data@.len(),
                self.data@.len() == other.data@.len(),
                forall|j: int| 0 <= j < i ==> #[trigger] t.data@[j] == self.data@[j].wrapping_add(other.data@[j]),
                forall|j: int| i <= j < t.data@.len() ==> #[trigger] t.data@[j] == self.data@[j],
            decreases t.data@.len() - i,
        {
            let x = t.data[i].wrapping_add(other.data[i]);
            t.data.set(i, x);
            i = i + 1;
        }
        t
    }

    /// The element-wise difference over the elements that both have.
    pub fn sub_tensor(self, other: &Tensor<i8>) -> (r: Tensor<i8>)
        ensures
            r.shape@ == self.shape@,
            r.data@.len() == self.data@.len(),
            forall|i: int|
                0 <= i < r.data@.len() ==> #[trigger] r.data@[i] == if i < other.data@.len() {
                    self.data@[i].wrapping_sub(other.data@[i])
                } else {
                    self.data@[i]
                },
    {
        let mut t = self;
        let mut i: usize = 0;
        while i < t.data.len() && i < other.data.len()
            invariant
                i <= t.data@.len(),
                t.shape@ == self.shape@,
                t.data@.len() == self.data@.len(),
                forall|j: int| 0 <= j < i ==> #[trigger] t.data@[j] == self.data@[j].wrapping_sub(other.data@[j]),
                forall|j: int| i <= j < t.data@.len() ==> #[trigger] t.data@[j] == self.data@[j],
                i <= other.data@.len(),
            decreases t.data@.len() - i,
        {
            let x = t.data[i].wrapping_sub(other.data[i]);
            t.data.set(i, x);
            i = i + 1;
        }
        t
    }

    /// Whether every element equals `k`.
    pub fn all_equal(&self, k: i8) -> (r: bool)
        ensures
            r == (forall|i: int| 0 <= i < self.data@.len() ==> self.data@[i] == k),
    {
        let mut i: usize = 0;
        while i < self.data.len()
            invariant
                i <= self.data@.len(),
                forall|j: int| 0 <= j < i ==> self.data@[j] == k,
            decreases self.data@.len() - i,
        {
            if self.data[i] != k {
                return false;
            }
            i = i + 1;
        }
        true
    }

    /// Whether both hold the same elements.
    pub fn same_elements(&self, other: &Tensor<i8>) -> (r: bool)
        ensures
            r == (self.data@ == other.data@),
    {
        if self.data.len() != other.data.len() {
            return false;
        }
        let mut i: usize = 0;
        while i < self.data.len()
            invariant
                i <= self.data@.len(),
                self.data@.len() == other.data@.len(),
                forall|j: int| 0 <= j < i ==> self.data@[j] == other.data@[j],
            decreases self.data@.len() - i,
        {
            if self.data[i] != other.data[i] {
                return false;
            }
            i = i + 1;
        }
        assert(self.data@ =~= other.data@);
        true
    }
}

/// Whether the two shapes agree and both hold as many elements.
fn same_shape(a: &Tensor<i8>, b: &Tensor<i8>) -> (r: bool)
    ensures
        r == (a.shape@ == b.shape@ && a.data@.len() == b.data@.len()),
{
    if a.data.len() != b.data.len() || a.shape.len() != b.shape.len() {
        return false;
    }
    let mut i: usize = 0;
    while i < a.shape.len()
        invariant
            i <= a.shape@.len(),
            a.shape@.len() == b.shape@.len(),
            forall|j: int| 0 <= j < i ==> a.shape@[j] == b.shape@[j],
        decreases a.shape@.len() - i,
    {
        if a.shape[i] != b.shape[i] {
            return false;
        }
        i = i + 1;
    }
    assert(a.shape@ =~= b.shape@);
    true
}

impl PartialEq for Tensor<i8> {
    fn eq(&self, other: &Tensor<i8>) -> (r: bool) {
        self.same_elements(other)
    }
}

impl vstd::std_specs::cmp::PartialEqSpecImpl for Tensor<i8> {
    open spec fn obeys_eq_spec() -> bool {
        true
    }

    open spec fn eq_spec(&self, other: &Tensor<i8>) -> bool {
        self.data@ == other.data@
    }
}

impl PartialEq<i8> for Tensor<i8> {
    fn eq(&self, other: &i8) -> (r: bool) {
        self.all_equal(*other)
    }
}

impl vstd::std_specs::cmp::PartialEqSpecImpl<i8> for Tensor<i8> {
    open spec fn obeys_eq_spec() -> bool {
        true
    }

    open spec fn eq_spec(&self, other: &i8) -> bool {
        forall|i: int| 0 <= i < self.data@.len() ==> self.data@[i] == *other
    }
}

impl<'a> core::ops::Add<&'a i8> for Tensor<i8> {
    type Output = Tensor<i8>;

    fn add(self, rhs: &'a i8) -> (r: Tensor<i8>) {
        self.add_scalar(*rhs)
    }
}

impl<'a> vstd::std_specs::ops::AddSpecImpl<&'a i8> for Tensor<i8> {
    open spec fn obeys_add_spec() -> bool {
        false
    }

    open spec fn add_req(self, rhs: &'a i8) -> bool {
        true
    }

    open spec fn add_spec(self, rhs: &'a i8) -> Tensor<i8> {
        self
    }
}

impl<'a> core::ops::Sub<&'a i8> for Tensor<i8> {
    type Output = Tensor<i8>;

    fn sub(self, rhs: &'a i8) -> (r: Tensor<i8>) {
        self.sub_scalar(*rhs)
    }
}

impl<'a> vstd::std_specs::ops::SubSpecImpl<&'a i8> for Tensor<i8> {
    open spec fn obeys_sub_spec() -> bool {
        false
    }

    open spec fn sub_req(self, rhs: &'a i8) -> bool {
        true
    }

    open spec fn sub_spec(self, rhs: &'a i8) -> Tensor<i8> {
        self
    }
}

impl<'a> core::ops::Mul<&'a i8> for Tensor<i8> {
    type Output = Tensor<i8>;

    fn mul(self, rhs: &'a i8) -> (r: Tensor<i8>) {
        self.scale(*rhs)
    }
}

impl<'a> vstd::std_specs::ops::MulSpecImpl<&'a i8> for Tensor<i8> {
    open spec fn obeys_mul_spec() -> bool {
        false
    }

    open spec fn mul_req(self, rhs: &'a i8) -> bool {
        true
    }

    open spec fn mul_spec(self, rhs: &'a i8) -> Tensor<i8> {
        self
    }
}

impl<'a> core::ops::Add<&'a Tensor<i8>> for Tensor<i8> {
    type Output = Tensor<i8>;

    fn add(self, rhs: &'a Tensor<i8>) -> (r: Tensor<i8>) {
        self.add_tensor(rhs)
    }
}

impl<'a> vstd::std_specs::ops::AddSpecImpl<&'a Tensor<i8>> for Tensor<i8> {
    open spec fn obeys_add_spec() -> bool {
        false
    }

    open spec fn add_req(self, rhs: &'a Tensor<i8>) -> bool {
        true
    }

    open spec fn add_spec(self, rhs: &'a Tensor<i8>) -> Tensor<i8> {
        self
    }
}

impl<'a> core::ops::Sub<&'a Tensor<i8>> for Tensor<i8> {
    type Output = Tensor<i8>;

    fn sub(self, rhs: &'a Tensor<i8>) -> (r: Tensor<i8>) {
        self.sub_tensor(rhs)
    }
}

impl<'a> vstd::std_specs::ops::SubSpecImpl<&'a Tensor<i8>> for Tensor<i8> {
    open spec fn obeys_sub_spec() -> bool {
        false
    }

    open spec fn sub_req(self, rhs: &'a Tensor<i8>) -> bool {
        true
    }

    open spec fn sub_spec(self, rhs: &'a Tensor<i8>) -> Tensor<i8> {
        self
    }
}

} // verus!
