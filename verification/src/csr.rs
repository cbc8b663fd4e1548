//! Layout rules for control and status registers: the bit fields of one
//! register may not share a name or a bit, and the registers of one map may
//! not share a name or an address.

use vstd::prelude::*;

verus! {

/// A named run of bits in a register, from `lsb` up to `msb`, both included.
pub struct Field {
    pub name: String,
    pub msb: usize,
    pub lsb: usize,
}

/// Why a field was turned away.
#[derive(Debug, Clone, Copy, PartialEq, Eq)]
pub enum FieldError {
    /// A bit of the field lies outside the register.
    Overflow,
    /// The field at this position has the same name.
    Redefined(usize),
    /// The field at this position shares a bit with the new one.
    Overlapped(usize),
}

impl Field {
    /// Bit `k` belongs to the field.
    pub open spec fn covers(self, k: int) -> bool {
        self.lsb <= k <= self.msb
    }

    /// The field has at least one bit.
    pub open spec fn valid(self) -> bool {
        self.lsb <= self.msb
    }

    /// What `overlap` computes: an end of one field lies within the other.
    pub open spec fn overlaps(self, rhs: Field) -> bool {
        ||| rhs.lsb <= self.msb <= rhs.msb
        ||| rhs.lsb <= self.lsb <= rhs.msb
        ||| self.lsb <= rhs.msb <= self.msb
        ||| self.lsb <= rhs.lsb <= self.msb
    }

    /// The two fields may not stand in one register.
    pub open spec fn clashes(self, rhs: Field) -> bool {
        self.name@ == rhs.name@ || self.overlaps(rhs)
    }

    /// Two fields with at least one bit each overlap exactly where they
    /// have a bit in common.
    pub proof fn lemma_overlaps_share_bit(self, rhs: Field)
        requires
            self.valid(),
            rhs.valid(),
        ensures
            self.overlaps(rhs) <==> exists|k: int| #[trigger] self.covers(k) && rhs.covers(k),
    {
        if self.overlaps(rhs) {
            if rhs.lsb <= self.msb <= rhs.msb {
                assert(self.covers(self.msb as int) && rhs.covers(self.msb as int));
            } else if rhs.lsb <= self.lsb <= rhs.msb {
                assert(self.covers(self.lsb as int) && rhs.covers(self.lsb as int));
            } else if self.lsb <= rhs.msb <= self.msb {
                assert(self.covers(rhs.msb as int) && rhs.covers(rhs.msb as int));
            } else {
                assert(self.covers(rhs.lsb as int) && rhs.covers(rhs.lsb as int));
            }
        }
    }

    /// A field from bit `lsb` up to bit `msb`, unless `msb` is the smaller.
    pub fn new(name: String, msb: usize, lsb: usize) -> (r: Option<Field>)
        ensures
            r == if msb < lsb {
                None
            } else {
                Some(Field { name, msb, lsb })
            },
    {
        if msb < lsb {
            None
        } else {
            Some(Field { name, msb, lsb })
        }
    }

    pub fn range(&self) -> (r: (usize, usize))
        ensures
            r == (self.msb, self.lsb),
    {
        (self.msb, self.lsb)
    }

    pub fn same_name(&self, rhs: &Field) -> (r: bool)
        ensures
            r == (self.name@ == rhs.name@),
    {
        self.name == rhs.name
    }

    pub fn overlap(&self, rhs: &Field) -> (r: bool)
        ensures
            r == self.overlaps(*rhs),
    {
        let ((msb, lsb), (rmsb, rlsb)) = (self.range(), rhs.range());
        msb >= rlsb && msb <= rmsb || lsb >= rlsb && lsb <= rmsb || rmsb >= lsb && rmsb <= msb
            || rlsb >= lsb && rlsb <= msb
    }
}

/// The fields of one register of `size` bits.
pub struct Fields {
    size: usize,
    fields: Vec<Field>,
}

impl View for Fields {
    type V = Seq<Field>;

    /// The fields in the order in which they were added.
    closed spec fn view(&self) -> Seq<Field> {
        self.fields@
    }
}

impl Fields {
    /// The number of bits in the register.
    pub closed spec fn size(&self) -> usize {
        self.size
    }

    /// `field` has a bit outside a register of `size` bits.
    pub open spec fn overflows(size: usize, field: Field) -> bool {
        field.msb >= size || field.lsb >= size
    }

    /// Every field lies within the register, and no two of them clash.
    pub open spec fn wf(&self) -> bool {
        &&& forall|i: int| 0 <= i < self@.len() ==> !Self::overflows(self.size(), #[trigger] self@[i])
        &&& forall|i: int, j: int|
            0 <= i < j < self@.len() ==> !(#[trigger] self@[j]).clashes(#[trigger] self@[i])
    }

    pub fn new(size: usize) -> (r: Self)
        ensures
            r.wf(),
            r.size() == size,
            r@ == Seq::<Field>::empty(),
    {
        Fields { size, fields: Vec::new() }
    }

    pub fn overflow(&self, field: &Field) -> (r: bool)
        ensures
            r == Self::overflows(self.size(), *field),
    {
        let (msb, lsb) = field.range();
        msb >= self.size || lsb >= self.size
    }

    /// Adds `field` behind the others, unless it leaves the register or
    /// clashes with one of them; the error names the first that it clashes
    /// with. The fields change only on success.
    pub fn add(&mut self, field: Field) -> (r: Result<(), FieldError>)
        requires
            old(self).wf(),
        ensures
            final(self).wf(),
            final(self).size() == old(self).size(),
            match r {
                Ok(_) => {
                    &&& !Self::overflows(old(self).size(), field)
                    &&& forall|i: int| 0 <= i < old(self)@.len() ==> !field.clashes(#[trigger] old(self)@[i])
                    &&& final(self)@ == old(self)@.push(field)
                },
                Err(FieldError::Overflow) => {
                    &&& Self::overflows(old(self).size(), field)
                    &&& final(self)@ == old(self)@
                },
                Err(FieldError::Redefined(at)) => {
                    &&& !Self::overflows(old(self).size(), field)
                    &&& at < old(self)@.len()
                    &&& forall|i: int| 0 <= i < at ==> !field.clashes(#[trigger] old(self)@[i])
                    &&& field.name@ == old(self)@[at as int].name@
                    &&& final(self)@ == old(self)@
                },
                Err(FieldError::Overlapped(at)) => {
                    &&& !Self::overflows(old(self).size(), field)
                    &&& at < old(self)@.len()
                    &&& forall|i: int| 0 <= i < at ==> !field.clashes(#[trigger] old(self)@[i])
                    &&& field.name@ != old(self)@[at as int].name@
                    &&& field.overlaps(old(self)@[at as int])
                    &&& final(self)@ == old(self)@
                },
            },
    {
        if self.overflow(&field) {
            return Err(FieldError::Overflow);
        }
        let n = self.fields.len();
        let mut at: usize = 0;
        while at < n
            invariant
                at <= n,
                n == self.fields@.len(),
                *self == *old(self),
                self.wf(),
                !Self::overflows(self.size(), field),
                forall|i: int| 0 <= i < at ==> !field.clashes(#[trigger] self.fields@[i]),
            decreases n - at,
        {
            if field.same_name(&self.fields[at]) {
                return Err(FieldError::Redefined(at));
            }
            if field.overlap(&self.fields[at]) {
                return Err(FieldError::Overlapped(at));
            }
            at += 1;
        }
        self.fields.push(field);
        Ok(())
    }

    /// The field that stands for the whole register.
    pub fn default_field(&self, name: String) -> (r: Field)
        requires
            self.size() > 0,
        ensures
            r == (Field { name, msb: (self.size() - 1) as usize, lsb: 0 }),
    {
        Field { name, msb: self.size - 1, lsb: 0 }
    }

    pub fn is_empty(&self) -> (r: bool)
        ensures
            r == (self@.len() == 0),
    {
        self.fields.len() == 0
    }

    pub fn len(&self) -> (r: usize)
        ensures
            r == self@.len(),
    {
        self.fields.len()
    }
}

/// One register of a map: its name and its address.
pub struct CsrMap {
    pub name: String,
    pub addr: u64,
}

/// Why a register was turned away.
#[derive(Debug, Clone, Copy, PartialEq, Eq)]
pub enum MapError {
    /// The address lies outside the map's range.
    OutOfRange,
    /// The register at this position has the same name.
    Redefined(usize),
    /// The register at this position has the same address.
    Overlapped(usize),
}

impl CsrMap {
    pub fn same_name(&self, rhs: &CsrMap) -> (r: bool)
        ensures
            r == (self.name@ == rhs.name@),
    {
        self.name == rhs.name
    }

    pub fn addr_value(&self) -> (r: u64)
        ensures
            r == self.addr,
    {
        self.addr
    }

    pub fn same_addr(&self, rhs: &CsrMap) -> (r: bool)
        ensures
            r == (self.addr == rhs.addr),
    {
        self.addr_value() == rhs.addr_value()
    }
}

/// The registers of one map, with addresses from `low` to `high`, both
/// included.
pub struct Maps {
    low: u64,
    high: u64,
    maps: Vec<CsrMap>,
}

impl View for Maps {
    type V = Seq<CsrMap>;

    /// The registers in the order in which they were added.
    closed spec fn view(&self) -> Seq<CsrMap> {
        self.maps@
    }
}

impl Maps {
    pub closed spec fn low(&self) -> u64 {
        self.low
    }

    pub closed spec fn high(&self) -> u64 {
        self.high
    }

    /// Every address lies in the range, and no two registers share a name
    /// or an address.
    pub open spec fn wf(&self) -> bool {
        &&& forall|i: int|
            0 <= i < self@.len() ==> self.low() <= (#[trigger] self@[i]).addr <= self.high()
        &&& forall|i: int, j: int|
            0 <= i < j < self@.len() ==> (#[trigger] self@[j]).name@ != (#[trigger] self@[i]).name@
                && self@[j].addr != self@[i].addr
    }

    pub fn new(low: u64, high: u64) -> (r: Self)
        ensures
            r.wf(),
            r.low() == low,
            r.high() == high,
            r@ == Seq::<CsrMap>::empty(),
    {
        Maps { low, high, maps: Vec::new() }
    }

    /// An empty map for the addresses from `low` to `high`, unless `low` is
    /// the bigger.
    pub fn checked(low: u64, high: u64) -> (r: Option<Self>)
        ensures
            r is None <==> low > high,
            r matches Some(m) ==> m.wf() && m.low() == low && m.high() == high && m@
                == Seq::<CsrMap>::empty(),
    {
        if low > high {
            None
        } else {
            Some(Maps::new(low, high))
        }
    }

    pub fn out_of_range(&self, csr_map: &CsrMap) -> (r: bool)
        ensures
            r == !(self.low() <= csr_map.addr <= self.high()),
    {
        csr_map.addr_value() > self.high || csr_map.addr_value() < self.low
    }

    pub fn len(&self) -> (r: usize)
        ensures
            r == self@.len(),
    {
        self.maps.len()
    }

    /// Adds `csr_map` behind the others, unless its address leaves the
    /// range or it shares its name or its address with one of them; the
    /// error names the first such register. The map changes only on success.
    pub fn add(&mut self, csr_map: CsrMap) -> (r: Result<(), MapError>)
        requires
            old(self).wf(),
        ensures
            final(self).wf(),
            final(self).low() == old(self).low(),
            final(self).high() == old(self).high(),
            match r {
                Ok(_) => {
                    &&& old(self).low() <= csr_map.addr <= old(self).high()
                    &&& forall|i: int|
                        0 <= i < old(self)@.len() ==> csr_map.name@ != (#[trigger] old(self)@[i]).name@
                            && csr_map.addr != old(self)@[i].addr
                    &&& final(self)@ == old(self)@.push(csr_map)
                },
                Err(MapError::OutOfRange) => {
                    &&& !(old(self).low() <= csr_map.addr <= old(self).high())
                    &&& final(self)@ == old(self)@
                },
                Err(MapError::Redefined(at)) => {
                    &&& old(self).low() <= csr_map.addr <= old(self).high()
                    &&& at < old(self)@.len()
                    &&& forall|i: int|
                        0 <= i < at ==> csr_map.name@ != (#[trigger] old(self)@[i]).name@
                            && csr_map.addr != old(self)@[i].addr
                    &&& csr_map.name@ == old(self)@[at as int].name@
                    &&& final(self)@ == old(self)@
                },
                Err(MapError::Overlapped(at)) => {
                    &&& old(self).low() <= csr_map.addr <= old(self).high()
                    &&& at < old(self)@.len()
                    &&& forall|i: int|
                        0 <= i < at ==> csr_map.name@ != (#[trigger] old(self)@[i]).name@
                            && csr_map.addr != old(self)@[i].addr
                    &&& csr_map.name@ != old(self)@[at as int].name@
                    &&& csr_map.addr == old(self)@[at as int].addr
                    &&& final(self)@ == old(self)@
                },
            },
    {
        if self.out_of_range(&csr_map) {
            return Err(MapError::OutOfRange);
        }
        let n = self.maps.len();
        let mut at: usize = 0;
        while at < n
            invariant
                at <= n,
                n == self.maps@.len(),
                *self == *old(self),
                self.wf(),
                self.low() <= csr_map.addr <= self.high(),
                forall|i: int|
                    0 <= i < at ==> csr_map.name@ != (#[trigger] self.maps@[i]).name@ && csr_map.addr
                        != self.maps@[i].addr,
            decreases n - at,
        {
            if csr_map.same_name(&self.maps[at]) {
                return Err(MapError::Redefined(at));
            }
            if csr_map.same_addr(&self.maps[at]) {
                return Err(MapError::Overlapped(at));
            }
            at += 1;
        }
        self.maps.push(csr_map);
        Ok(())
    }
}

} // verus!
