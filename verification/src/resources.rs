use vstd::prelude::*;

verus! {

/// Number of resource types.
pub const RESOURCE_TYPES: usize = 8;

/// Number of product types.
pub const PRODUCT_TYPES: usize = 8;

/// One of the eight resource types.
#[derive(Clone, Copy, Debug, PartialEq, Eq, Structural)]
pub enum ResourceType {
    Type0,
    Type1,
    Type2,
    Type3,
    Type4,
    Type5,
    Type6,
    Type7,
}

impl ResourceType {
    /// Slot of this type in a resource vector.
    pub open spec fn spec_slot(self) -> int {
        match self {
            ResourceType::Type0 => 0,
            ResourceType::Type1 => 1,
            ResourceType::Type2 => 2,
            ResourceType::Type3 => 3,
            ResourceType::Type4 => 4,
            ResourceType::Type5 => 5,
            ResourceType::Type6 => 6,
            ResourceType::Type7 => 7,
        }
    }

    pub fn slot(self) -> (i: usize)
        ensures
            i == self.spec_slot(),
            i < RESOURCE_TYPES,
    {
        match self {
            ResourceType::Type0 => 0,
            ResourceType::Type1 => 1,
            ResourceType::Type2 => 2,
            ResourceType::Type3 => 3,
            ResourceType::Type4 => 4,
            ResourceType::Type5 => 5,
            ResourceType::Type6 => 6,
            ResourceType::Type7 => 7,
        }
    }

    /// The type with slot `subtype`, if `subtype < 8`.
    pub fn from_subtype(subtype: u8) -> (r: Option<ResourceType>)
        ensures
            r is Some <==> subtype < 8,
            r is Some ==> r->0.spec_slot() == subtype,
    {
        match subtype {
            0 => Some(ResourceType::Type0),
            1 => Some(ResourceType::Type1),
            2 => Some(ResourceType::Type2),
            3 => Some(ResourceType::Type3),
            4 => Some(ResourceType::Type4),
            5 => Some(ResourceType::Type5),
            6 => Some(ResourceType::Type6),
            7 => Some(ResourceType::Type7),
            _ => None,
        }
    }

    pub fn subtype(self) -> (s: u8)
        ensures
            s == self.spec_slot(),
    {
        match self {
            ResourceType::Type0 => 0,
            ResourceType::Type1 => 1,
            ResourceType::Type2 => 2,
            ResourceType::Type3 => 3,
            ResourceType::Type4 => 4,
            ResourceType::Type5 => 5,
            ResourceType::Type6 => 6,
            ResourceType::Type7 => 7,
        }
    }
}

/// One of the eight product types.
#[derive(Clone, Copy, Debug, PartialEq, Eq, Structural)]
pub enum ProductType {
    Type0,
    Type1,
    Type2,
    Type3,
    Type4,
    Type5,
    Type6,
    Type7,
}

impl ProductType {
    /// Slot of this type in the product table.
    pub open spec fn spec_slot(self) -> int {
        match self {
            ProductType::Type0 => 0,
            ProductType::Type1 => 1,
            ProductType::Type2 => 2,
            ProductType::Type3 => 3,
            ProductType::Type4 => 4,
            ProductType::Type5 => 5,
            ProductType::Type6 => 6,
            ProductType::Type7 => 7,
        }
    }

    pub fn slot(self) -> (i: usize)
        ensures
            i == self.spec_slot(),
            i < PRODUCT_TYPES,
    {
        match self {
            ProductType::Type0 => 0,
            ProductType::Type1 => 1,
            ProductType::Type2 => 2,
            ProductType::Type3 => 3,
            ProductType::Type4 => 4,
            ProductType::Type5 => 5,
            ProductType::Type6 => 6,
            ProductType::Type7 => 7,
        }
    }

    /// The type with slot `subtype`, if `subtype < 8`.
    pub fn from_subtype(subtype: u8) -> (r: Option<ProductType>)
        ensures
            r is Some <==> subtype < 8,
            r is Some ==> r->0.spec_slot() == subtype,
    {
        match subtype {
            0 => Some(ProductType::Type0),
            1 => Some(ProductType::Type1),
            2 => Some(ProductType::Type2),
            3 => Some(ProductType::Type3),
            4 => Some(ProductType::Type4),
            5 => Some(ProductType::Type5),
            6 => Some(ProductType::Type6),
            7 => Some(ProductType::Type7),
            _ => None,
        }
    }

    pub fn subtype(self) -> (s: u8)
        ensures
            s == self.spec_slot(),
    {
        match self {
            ProductType::Type0 => 0,
            ProductType::Type1 => 1,
            ProductType::Type2 => 2,
            ProductType::Type3 => 3,
            ProductType::Type4 => 4,
            ProductType::Type5 => 5,
            ProductType::Type6 => 6,
            ProductType::Type7 => 7,
        }
    }
}

/// An amount of each of the eight resource types.
#[derive(Clone, Copy, Debug, PartialEq, Eq)]
pub struct Resources {
    pub values: [u16; 8],
}

impl Default for Resources {
    fn default() -> (r: Resources)
        ensures
            r == Resources::spec_empty(),
            r.spec_is_empty(),
    {
        let r = Resources { values: [0, 0, 0, 0, 0, 0, 0, 0] };
        proof {
            Resources::lemma_equal(r, Resources::spec_empty());
        }
        r
    }
}

impl Resources {
    /// The amount held of the type with slot `i`.
    #[verifier::inline]
    pub open spec fn amount(self, i: int) -> int {
        self.values[i] as int
    }

    /// The vector whose slot `i` holds `f(i)`.
    pub open spec fn from_fn(f: spec_fn(int) -> u16) -> Resources {
        Resources { values: [f(0), f(1), f(2), f(3), f(4), f(5), f(6), f(7)] }
    }

    /// The vector with nothing in it.
    pub open spec fn spec_empty() -> Resources {
        Self::from_fn(|i: int| 0u16)
    }

    /// `n` units of the type with slot `slot` and nothing else.
    pub open spec fn spec_single(slot: int, n: u16) -> Resources {
        Self::from_fn(
            |i: int|
                if i == slot {
                    n
                } else {
                    0u16
                },
        )
    }

    /// Componentwise sum, where it fits.
    pub open spec fn spec_add(self, rhs: Resources) -> Resources {
        Self::from_fn(|i: int| (self.amount(i) + rhs.amount(i)) as u16)
    }

    /// Componentwise difference, each slot stopping at zero.
    pub open spec fn spec_saturating_sub(self, rhs: Resources) -> Resources {
        Self::from_fn(
            |i: int|
                if self.amount(i) >= rhs.amount(i) {
                    (self.amount(i) - rhs.amount(i)) as u16
                } else {
                    0u16
                },
        )
    }

    /// Componentwise product, where it fits.
    pub open spec fn spec_mul(self, rhs: Resources) -> Resources {
        Self::from_fn(|i: int| (self.amount(i) * rhs.amount(i)) as u16)
    }

    /// Componentwise quotient, a slot divided by zero holding the largest
    /// amount.
    pub open spec fn spec_div(self, rhs: Resources) -> Resources {
        Self::from_fn(|i: int| Self::ratio(self.amount(i), rhs.amount(i)) as u16)
    }

    /// Two vectors that hold the same amounts are equal.
    pub proof fn lemma_equal(a: Resources, b: Resources)
        requires
            forall|i: int| 0 <= i < 8 ==> a.amount(i) == b.amount(i),
        ensures
            a == b,
    {
        assert(a.values =~= b.values);
    }

    /// Every amount is zero.
    pub open spec fn spec_is_empty(self) -> bool {
        forall|i: int| 0 <= i < 8 ==> self.amount(i) == 0
    }

    /// Every amount is at least the corresponding amount of `other`.
    pub open spec fn spec_has_at_least(self, other: Resources) -> bool {
        forall|i: int| 0 <= i < 8 ==> self.amount(i) >= other.amount(i)
    }

    /// The sum with `rhs` fits in every slot.
    pub open spec fn can_add(self, rhs: Resources) -> bool {
        forall|i: int| 0 <= i < 8 ==> self.amount(i) + rhs.amount(i) <= u16::MAX
    }

    /// The product with `rhs` fits in every slot.
    pub open spec fn can_mul(self, rhs: Resources) -> bool {
        forall|i: int| 0 <= i < 8 ==> self.amount(i) * rhs.amount(i) <= u16::MAX
    }

    /// Quotient of one slot, where division by zero gives the largest amount.
    pub open spec fn ratio(a: int, b: int) -> int {
        if b == 0 {
            u16::MAX as int
        } else {
            a / b
        }
    }

    /// The smallest of the eight amounts.
    pub open spec fn spec_min(self) -> int {
        Self::least(self, 8)
    }

    /// The smallest of the first `n` amounts (the largest amount if `n <= 0`).
    pub open spec fn least(r: Resources, n: int) -> int
        decreases n,
    {
        if n <= 0 {
            u16::MAX as int
        } else {
            let rest = Self::least(r, n - 1);
            if r.amount(n - 1) < rest {
                r.amount(n - 1)
            } else {
                rest
            }
        }
    }

    /// The sum of the eight amounts.
    pub open spec fn total(self) -> int {
        Self::sum_to(self, 8)
    }

    /// The sum of the first `n` amounts.
    pub open spec fn sum_to(r: Resources, n: int) -> int
        decreases n,
    {
        if n <= 0 {
            0
        } else {
            Self::sum_to(r, n - 1) + r.amount(n - 1)
        }
    }

    pub fn new(values: [u16; 8]) -> (r: Resources)
        ensures
            r.values == values,
    {
        Resources { values }
    }

    /// The same amount `n` of every type.
    pub fn splat(n: u16) -> (r: Resources)
        ensures
            forall|i: int| 0 <= i < 8 ==> r.amount(i) == n,
    {
        Resources { values: [n, n, n, n, n, n, n, n] }
    }

    /// `n` units of `resource_type` and nothing else.
    pub fn single(resource_type: ResourceType, n: u16) -> (r: Resources)
        ensures
            r == Self::spec_single(resource_type.spec_slot(), n),
            forall|i: int|
                0 <= i < 8 ==> r.amount(i) == if i == resource_type.spec_slot() {
                    n as int
                } else {
                    0
                },
    {
        let mut r = Resources { values: [0, 0, 0, 0, 0, 0, 0, 0] };
        r.values[resource_type.slot()] = n;
        proof {
            Self::lemma_equal(r, Self::spec_single(resource_type.spec_slot(), n));
        }
        r
    }

    pub fn get(&self, resource_type: ResourceType) -> (n: u16)
        ensures
            n == self.amount(resource_type.spec_slot()),
    {
        self.values[resource_type.slot()]
    }

    pub fn has_at_least(&self, other: &Resources) -> (b: bool)
        ensures
            b == self.spec_has_at_least(*other),
    {
        let mut i: usize = 0;
        while i < 8
            invariant
                i <= 8,
                forall|j: int| 0 <= j < i ==> self.amount(j) >= other.amount(j),
            decreases 8 - i,
        {
            if self.values[i] < other.values[i] {
                return false;
            }
            i += 1;
        }
        true
    }

    pub fn is_empty(&self) -> (b: bool)
        ensures
            b == self.spec_is_empty(),
    {
        let mut i: usize = 0;
        while i < 8
            invariant
                i <= 8,
                forall|j: int| 0 <= j < i ==> self.amount(j) == 0,
            decreases 8 - i,
        {
            if self.values[i] != 0 {
                return false;
            }
            i += 1;
        }
        true
    }

    /// The eight amounts in slot order.
    pub fn iter(&self) -> (v: Vec<u16>)
        ensures
            v@ == self.values@,
    {
        let mut v: Vec<u16> = Vec::new();
        let mut i: usize = 0;
        while i < 8
            invariant
                i <= 8,
                v@.len() == i,
                forall|j: int| 0 <= j < i ==> v@[j] == self.values@[j],
            decreases 8 - i,
        {
            v.push(self.values[i]);
            i += 1;
        }
        assert(v@ =~= self.values@);
        v
    }

    /// Componentwise sum.
    pub fn add(&self, rhs: &Resources) -> (r: Resources)
        requires
            self.can_add(*rhs),
        ensures
            r == self.spec_add(*rhs),
            forall|i: int| 0 <= i < 8 ==> r.amount(i) == self.amount(i) + rhs.amount(i),
    {
        let mut r = Resources { values: [0, 0, 0, 0, 0, 0, 0, 0] };
        let mut i: usize = 0;
        while i < 8
            invariant
                i <= 8,
                self.can_add(*rhs),
                forall|j: int| 0 <= j < i ==> r.amount(j) == self.amount(j) + rhs.amount(j),
            decreases 8 - i,
        {
            assert(self.amount(i as int) + rhs.amount(i as int) <= u16::MAX);
            r.values[i] = self.values[i] + rhs.values[i];
            i += 1;
        }
        proof {
            Self::lemma_equal(r, self.spec_add(*rhs));
        }
        r
    }

    /// Componentwise sum, or `None` if it does not fit in some slot.
    pub fn checked_add(&self, rhs: &Resources) -> (r: Option<Resources>)
        ensures
            r is Some <==> self.can_add(*rhs),
            r is Some ==> r->0 == self.spec_add(*rhs),
            r is Some ==> forall|i: int|
                0 <= i < 8 ==> r->0.amount(i) == self.amount(i) + rhs.amount(i),
    {
        let mut r = Resources { values: [0, 0, 0, 0, 0, 0, 0, 0] };
        let mut i: usize = 0;
        while i < 8
            invariant
                i <= 8,
                forall|j: int| 0 <= j < i ==> self.amount(j) + rhs.amount(j) <= u16::MAX,
                forall|j: int| 0 <= j < i ==> r.amount(j) == self.amount(j) + rhs.amount(j),
            decreases 8 - i,
        {
            match self.values[i].checked_add(rhs.values[i]) {
                Some(s) => {
                    r.values[i] = s;
                },
                None => {
                    assert(self.amount(i as int) + rhs.amount(i as int) > u16::MAX);
                    return None;
                },
            }
            i += 1;
        }
        proof {
            Self::lemma_equal(r, self.spec_add(*rhs));
        }
        Some(r)
    }

    /// Componentwise difference, each slot stopping at zero.
    pub fn saturating_sub(&self, rhs: &Resources) -> (r: Resources)
        ensures
            r == self.spec_saturating_sub(*rhs),
            forall|i: int|
                0 <= i < 8 ==> r.amount(i) == if self.amount(i) >= rhs.amount(i) {
                    self.amount(i) - rhs.amount(i)
                } else {
                    0
                },
    {
        let mut r = Resources { values: [0, 0, 0, 0, 0, 0, 0, 0] };
        let mut i: usize = 0;
        while i < 8
            invariant
                i <= 8,
                forall|j: int|
                    0 <= j < i ==> r.amount(j) == if self.amount(j) >= rhs.amount(j) {
                        self.amount(j) - rhs.amount(j)
                    } else {
                        0
                    },
            decreases 8 - i,
        {
            r.values[i] = if self.values[i] >= rhs.values[i] {
                self.values[i] - rhs.values[i]
            } else {
                0
            };
            i += 1;
        }
        proof {
            Self::lemma_equal(r, self.spec_saturating_sub(*rhs));
        }
        r
    }

    /// Componentwise product.
    pub fn mul(&self, rhs: &Resources) -> (r: Resources)
        requires
            self.can_mul(*rhs),
        ensures
            r == self.spec_mul(*rhs),
            forall|i: int| 0 <= i < 8 ==> r.amount(i) == self.amount(i) * rhs.amount(i),
    {
        let mut r = Resources { values: [0, 0, 0, 0, 0, 0, 0, 0] };
        let mut i: usize = 0;
        while i < 8
            invariant
                i <= 8,
                self.can_mul(*rhs),
                forall|j: int| 0 <= j < i ==> r.amount(j) == self.amount(j) * rhs.amount(j),
            decreases 8 - i,
        {
            assert(self.amount(i as int) * rhs.amount(i as int) <= u16::MAX);
            r.values[i] = self.values[i] * rhs.values[i];
            i += 1;
        }
        proof {
            Self::lemma_equal(r, self.spec_mul(*rhs));
        }
        r
    }

    /// Componentwise integer quotient; a slot divided by zero holds the
    /// largest amount.
    pub fn div(&self, rhs: &Resources) -> (r: Resources)
        ensures
            r == self.spec_div(*rhs),
            forall|i: int|
                0 <= i < 8 ==> r.amount(i) == Self::ratio(self.amount(i), rhs.amount(i)),
    {
        let mut r = Resources { values: [0, 0, 0, 0, 0, 0, 0, 0] };
        let mut i: usize = 0;
        while i < 8
            invariant
                i <= 8,
                forall|j: int|
                    0 <= j < i ==> r.amount(j) == Self::ratio(self.amount(j), rhs.amount(j)),
            decreases 8 - i,
        {
            r.values[i] = if rhs.values[i] == 0 {
                u16::MAX
            } else {
                self.values[i] / rhs.values[i]
            };
            i += 1;
        }
        proof {
            Self::lemma_equal(r, self.spec_div(*rhs));
        }
        r
    }

    /// The smallest of the eight amounts.
    pub fn min(&self) -> (m: u16)
        ensures
            m == self.spec_min(),
            forall|i: int| 0 <= i < 8 ==> m <= self.amount(i),
            exists|i: int| 0 <= i < 8 && m == self.amount(i),
    {
        let mut m: u16 = self.values[0];
        let mut i: usize = 1;
        assert(Self::least(*self, 1) == self.amount(0)) by {
            reveal_with_fuel(Resources::least, 2);
        }
        while i < 8
            invariant
                1 <= i <= 8,
                m == Self::least(*self, i as int),
                forall|j: int| 0 <= j < i ==> m <= self.amount(j),
                exists|j: int| 0 <= j < i && m == self.amount(j),
            decreases 8 - i,
        {
            if self.values[i] < m {
                m = self.values[i];
            }
            i += 1;
        }
        m
    }
}

/// A recipe and the points that one unit of the product scores.
#[derive(Clone, Copy, Debug, PartialEq, Eq)]
pub struct Product {
    pub resources: Resources,
    pub points: u32,
}

impl Default for Product {
    fn default() -> (p: Product)
        ensures
            p.resources.spec_is_empty(),
            p.points == 0,
    {
        Product { resources: Resources::default(), points: 0 }
    }
}

impl Product {
    pub fn new(resources: Resources, points: u32) -> (p: Product)
        ensures
            p == (Product { resources, points }),
    {
        Product { resources, points }
    }
}

/// The product table: one entry per product type. An entry with zero points
/// is an unused slot.
#[derive(Clone, Copy, Debug, PartialEq, Eq)]
pub struct Products {
    pub values: [Product; 8],
}

impl Default for Products {
    fn default() -> (p: Products)
        ensures
            forall|i: int|
                0 <= i < 8 ==> (#[trigger] p.values[i]).points == 0
                    && p.values[i].resources.spec_is_empty(),
    {
        let e = Product::default();
        Products { values: [e, e, e, e, e, e, e, e] }
    }
}

impl Products {
    /// The entry for `product_type`.
    pub open spec fn spec_get(self, product_type: ProductType) -> Product {
        self.values[product_type.spec_slot()]
    }

    pub fn get(&self, product_type: ProductType) -> (p: Product)
        ensures
            p == self.spec_get(product_type),
    {
        self.values[product_type.slot()]
    }

    pub fn set(&mut self, product_type: ProductType, product: Product)
        ensures
            final(self).values@ == old(self).values@.update(product_type.spec_slot(), product),
    {
        self.values[product_type.slot()] = product;
    }

    /// The eight entries in slot order.
    pub fn iter(&self) -> (v: Vec<Product>)
        ensures
            v@ == self.values@,
    {
        let mut v: Vec<Product> = Vec::new();
        let mut i: usize = 0;
        while i < 8
            invariant
                i <= 8,
                v@.len() == i,
                forall|j: int| 0 <= j < i ==> v@[j] == self.values@[j],
            decreases 8 - i,
        {
            v.push(self.values[i]);
            i += 1;
        }
        assert(v@ =~= self.values@);
        v
    }
}

} // verus!
