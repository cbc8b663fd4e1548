use insn_map::csr::{CsrMap, Field, FieldError, Fields, MapError, Maps};

fn field(name: &str, msb: usize, lsb: usize) -> Field {
    Field::new(name.to_string(), msb, lsb).unwrap()
}

fn reg(name: &str, addr: u64) -> CsrMap {
    CsrMap { name: name.to_string(), addr }
}

#[test]
fn field_needs_msb_not_below_lsb() {
    assert!(Field::new("a".to_string(), 3, 4).is_none());
    let f = Field::new("a".to_string(), 4, 4).unwrap();
    assert_eq!(f.range(), (4, 4));
    assert_eq!(field("b", 7, 2).range(), (7, 2));
}

#[test]
fn field_overlap_is_sharing_a_bit() {
    let a = field("a", 7, 4);
    assert!(a.overlap(&field("b", 4, 0)));
    assert!(a.overlap(&field("b", 9, 7)));
    assert!(a.overlap(&field("b", 6, 5)));
    assert!(a.overlap(&field("b", 31, 0)));
    assert!(a.overlap(&field("b", 7, 4)));
    assert!(!a.overlap(&field("b", 3, 0)));
    assert!(!a.overlap(&field("b", 8, 8)));
    assert!(a.same_name(&field("a", 0, 0)));
    assert!(!a.same_name(&field("A", 7, 4)));
}

#[test]
fn fields_add_in_order() {
    let mut fs = Fields::new(32);
    assert!(fs.is_empty());
    assert_eq!(fs.add(field("mode", 1, 0)), Ok(()));
    assert_eq!(fs.add(field("base", 31, 2)), Ok(()));
    assert!(!fs.is_empty());
    assert_eq!(fs.len(), 2);
}

#[test]
fn fields_add_errors() {
    let mut fs = Fields::new(32);
    assert_eq!(fs.add(field("wide", 32, 0)), Err(FieldError::Overflow));
    assert_eq!(fs.add(field("far", 40, 33)), Err(FieldError::Overflow));
    assert_eq!(fs.add(field("mode", 1, 0)), Ok(()));
    assert_eq!(fs.add(field("base", 31, 8)), Ok(()));
    assert_eq!(fs.add(field("base", 7, 2)), Err(FieldError::Redefined(1)));
    assert_eq!(fs.add(field("mid", 8, 2)), Err(FieldError::Overlapped(1)));
    assert_eq!(fs.add(field("low", 5, 1)), Err(FieldError::Overlapped(0)));
    // The first field that clashes is named, and a shared name comes
    // before a shared bit at the same field.
    assert_eq!(fs.add(field("base", 1, 1)), Err(FieldError::Overlapped(0)));
    assert_eq!(fs.add(field("mode", 0, 0)), Err(FieldError::Redefined(0)));
    assert_eq!(fs.len(), 2);
    assert_eq!(fs.add(field("mid", 7, 2)), Ok(()));
    assert_eq!(fs.len(), 3);
}

#[test]
fn default_field_spans_the_register() {
    let fs = Fields::new(64);
    let f = fs.default_field("mstatus".to_string());
    assert_eq!(f.name, "mstatus");
    assert_eq!(f.range(), (63, 0));
    assert!(!fs.overflow(&f));
    assert!(Fields::new(32).overflow(&f));
}

#[test]
fn maps_add_in_range() {
    assert!(Maps::checked(0x10, 0xf).is_none());
    let mut maps = Maps::checked(0x300, 0x3ff).unwrap();
    assert_eq!(maps.add(reg("mstatus", 0x300)), Ok(()));
    assert_eq!(maps.add(reg("misa", 0x301)), Ok(()));
    assert_eq!(maps.add(reg("top", 0x3ff)), Ok(()));
    assert_eq!(maps.len(), 3);
}

#[test]
fn maps_add_errors() {
    let mut maps = Maps::new(0x300, 0x3ff);
    assert!(maps.out_of_range(&reg("x", 0x2ff)));
    assert!(maps.out_of_range(&reg("x", 0x400)));
    assert!(!maps.out_of_range(&reg("x", 0x300)));
    assert_eq!(maps.add(reg("below", 0x2ff)), Err(MapError::OutOfRange));
    assert_eq!(maps.add(reg("above", 0x400)), Err(MapError::OutOfRange));
    assert_eq!(maps.add(reg("mstatus", 0x300)), Ok(()));
    assert_eq!(maps.add(reg("misa", 0x301)), Ok(()));
    assert_eq!(maps.add(reg("misa", 0x302)), Err(MapError::Redefined(1)));
    assert_eq!(maps.add(reg("other", 0x301)), Err(MapError::Overlapped(1)));
    assert_eq!(maps.add(reg("misa", 0x300)), Err(MapError::Overlapped(0)));
    assert_eq!(maps.add(reg("mstatus", 0x301)), Err(MapError::Redefined(0)));
    assert_eq!(maps.len(), 2);
    let a = reg("a", 5);
    assert!(a.same_addr(&reg("b", 5)));
    assert!(!a.same_addr(&reg("a", 6)));
    assert!(a.same_name(&reg("a", 6)));
    assert_eq!(a.addr_value(), 5);
}
