use insn_map::index::{DecodeError, DecodeIndex, RegisterError};
use insn_map::pattern::Pattern;

fn pat(name: &str, code: u64, mask: u64) -> Pattern<String> {
    Pattern::new(name.to_string(), code, mask, name.to_string())
}

fn found(idx: &DecodeIndex<String>, word: u64) -> Option<String> {
    idx.lookup(word).cloned()
}

#[test]
fn four_bit_example() {
    let mut idx = DecodeIndex::new(4);
    assert!(idx.register(pat("X", 0b0000, 0b1111)).is_ok());
    assert!(idx.register(pat("Y", 0b0001, 0b1111)).is_ok());
    match idx.register(pat("Z", 0b0000, 0b1100)) {
        Err(RegisterError::Conflict(e)) => {
            assert_eq!(e.existing.name, "X");
            assert_eq!(e.existing.code, 0b0000);
            assert_eq!(e.existing.mask, 0b1111);
            assert_eq!(e.incoming.name, "Z");
            assert_eq!(e.incoming.code, 0b0000);
            assert_eq!(e.incoming.mask, 0b1100);
        }
        other => panic!("expected a conflict, got {:?}", other),
    }
    idx.freeze();
    assert_eq!(found(&idx, 0b0000), Some("X".to_string()));
    assert_eq!(found(&idx, 0b0001), Some("Y".to_string()));
    assert_eq!(found(&idx, 0b0010), None);
}

#[test]
fn same_code_is_a_conflict_and_first_stays() {
    let mut idx = DecodeIndex::new(16);
    assert!(idx.register(pat("first", 0x1200, 0xff00)).is_ok());
    let r = idx.register(pat("second", 0x1200, 0xffff));
    assert!(matches!(r, Err(RegisterError::Conflict(_))));
    assert_eq!(found(&idx, 0x12ab), Some("first".to_string()));
    idx.freeze();
    assert_eq!(found(&idx, 0x12ab), Some("first".to_string()));
    assert_eq!(found(&idx, 0x1200), Some("first".to_string()));
}

#[test]
fn exact_match_only_on_its_code() {
    let mut idx = DecodeIndex::new(8);
    assert!(idx.register(pat("only", 0b1010_0101, 0xff)).is_ok());
    idx.freeze();
    for w in 0u64..256 {
        let expected = if w == 0b1010_0101 { Some("only".to_string()) } else { None };
        assert_eq!(found(&idx, w), expected);
    }
}

#[test]
fn exact_match_among_overlapping_patterns() {
    let mut idx = DecodeIndex::new(8);
    assert!(idx.register(pat("any", 0, 0)).is_ok());
    assert!(idx.register(pat("exact", 0x5a, 0xff)).is_ok());
    idx.freeze();
    assert_eq!(found(&idx, 0x5a), Some("exact".to_string()));
    assert_eq!(found(&idx, 0x5b), Some("any".to_string()));
}

#[test]
fn wildcard_bit_matches_both_values() {
    for p in 0u64..8 {
        let code = 0b0100_0000u64 >> if p == 6 { 1 } else { 0 };
        let mask = 0xffu64 & !(1u64 << p);
        let mut idx = DecodeIndex::new(8);
        assert!(idx.register(pat("wild", code, mask)).is_ok());
        idx.freeze();
        assert_eq!(found(&idx, code), Some("wild".to_string()));
        assert_eq!(found(&idx, code | (1 << p)), Some("wild".to_string()));
        assert_eq!(found(&idx, code ^ (1 << ((p + 1) % 8))), None);
    }
}

#[test]
fn frozen_index_takes_no_pattern() {
    let mut idx = DecodeIndex::new(8);
    assert!(!idx.is_frozen());
    assert!(idx.register(pat("a", 1, 0xff)).is_ok());
    idx.freeze();
    assert!(idx.is_frozen());
    assert!(matches!(idx.register(pat("b", 2, 0xff)), Err(RegisterError::Frozen)));
    assert!(matches!(idx.register(pat("a2", 1, 0xff)), Err(RegisterError::Frozen)));
    assert_eq!(found(&idx, 2), None);
    for _ in 0..3 {
        assert_eq!(found(&idx, 1), Some("a".to_string()));
        assert_eq!(found(&idx, 3), None);
    }
}

#[test]
fn freeze_changes_no_lookup() {
    let entries: [(u64, u64); 9] = [
        (0b0000_0000, 0b1111_1111),
        (0b0000_0001, 0b1111_1111),
        (0b0000_0010, 0b0000_0011),
        (0b1000_0000, 0b1000_0000),
        (0b0110_0000, 0b1111_0000),
        (0b0110_1000, 0b1111_1100),
        (0b0101_0101, 0b0101_0101),
        (0b0011_1100, 0b0011_1111),
        (0b1111_1111, 0b1111_1111),
    ];
    let mut idx = DecodeIndex::new(8);
    for (i, (code, mask)) in entries.iter().enumerate() {
        assert!(idx.register(pat(&format!("e{}", i), *code, *mask)).is_ok());
    }
    let before: Vec<Option<String>> = (0u64..256).map(|w| found(&idx, w)).collect();
    idx.freeze();
    let after: Vec<Option<String>> = (0u64..256).map(|w| found(&idx, w)).collect();
    assert_eq!(before, after);
    idx.freeze();
    let again: Vec<Option<String>> = (0u64..256).map(|w| found(&idx, w)).collect();
    assert_eq!(before, again);
    for (w, hit) in before.iter().enumerate() {
        let any = entries.iter().any(|(code, mask)| (w as u64) & mask == *code);
        assert_eq!(hit.is_some(), any);
        if let Some(name) = hit {
            let i: usize = name[1..].parse().unwrap();
            assert_eq!((w as u64) & entries[i].1, entries[i].0);
        }
    }
}

#[test]
fn unmatched_word_is_illegal() {
    let mut idx: DecodeIndex<String> = DecodeIndex::new(32);
    idx.freeze();
    assert_eq!(found(&idx, 0), None);
    assert_eq!(found(&idx, 0xdead_beef), None);
    assert!(matches!(idx.decode(0xdead_beef), Err(DecodeError::Illegal(0xdead_beef))));

    let mut idx = DecodeIndex::new(32);
    assert!(idx.register(pat("addi", 0x13, 0x707f)).is_ok());
    idx.freeze();
    assert_eq!(idx.decode(0x0010_0093).ok().cloned(), Some("addi".to_string()));
    assert!(matches!(idx.decode(0x0010_1093), Err(DecodeError::Illegal(0x0010_1093))));
}

#[test]
fn first_reached_pattern_wins() {
    let mut idx = DecodeIndex::new(4);
    assert!(idx.register(pat("low_clear", 0b0000, 0b0001)).is_ok());
    assert!(idx.register(pat("bit1_set", 0b0010, 0b0010)).is_ok());
    assert!(idx.register(pat("top", 0b1100, 0b1111)).is_ok());
    idx.freeze();
    // Both of the first two match 0b0010; the search follows bit 1 of the
    // word to the right and meets `bit1_set` first.
    assert_eq!(found(&idx, 0b0010), Some("bit1_set".to_string()));
    assert_eq!(found(&idx, 0b0110), Some("bit1_set".to_string()));
    // `top` and `low_clear` both match 0b1100; the search follows bits 2
    // and 3 of the word and meets `top` first.
    assert_eq!(found(&idx, 0b1100), Some("top".to_string()));
    assert_eq!(found(&idx, 0b0100), Some("low_clear".to_string()));
    assert_eq!(found(&idx, 0b0011), Some("bit1_set".to_string()));
    assert_eq!(found(&idx, 0b0001), None);
}

#[test]
fn code_outside_the_width_is_turned_away() {
    let mut idx = DecodeIndex::new(4);
    assert!(matches!(idx.register(pat("wide", 0b1_0000, 0b1111)), Err(RegisterError::TooWide)));
    assert!(idx.register(pat("fits", 0b1111, 0b1111)).is_ok());
    assert!(idx.register(pat("wide_mask", 0b0111, 0xffff_ffff_ffff_ffff)).is_ok());
    idx.freeze();
    assert_eq!(found(&idx, 0b1111), Some("fits".to_string()));
    assert_eq!(found(&idx, 0b0111), Some("wide_mask".to_string()));
    assert_eq!(found(&idx, 0b1_1111), None);
    assert_eq!(found(&idx, 0b1_0000), None);
}

#[test]
fn widths_at_both_ends() {
    let mut idx = DecodeIndex::new(0);
    assert_eq!(idx.bit_width(), 0);
    assert_eq!(found(&idx, 0), None);
    assert!(idx.register(pat("unit", 0, 0)).is_ok());
    assert!(matches!(idx.register(pat("again", 0, 0)), Err(RegisterError::Conflict(_))));
    assert!(matches!(idx.register(pat("one", 1, 0)), Err(RegisterError::TooWide)));
    idx.freeze();
    assert_eq!(found(&idx, 0), Some("unit".to_string()));
    assert_eq!(found(&idx, 1), None);

    let mut idx = DecodeIndex::new(64);
    let top = 0x8000_0000_0000_0000u64;
    assert!(idx.register(pat("top", top, top)).is_ok());
    assert!(idx.register(pat("max", u64::MAX, u64::MAX)).is_ok());
    assert!(idx.register(pat("zero", 0, u64::MAX)).is_ok());
    idx.freeze();
    assert_eq!(found(&idx, top), Some("top".to_string()));
    assert_eq!(found(&idx, top | 0x1234), Some("top".to_string()));
    assert_eq!(found(&idx, u64::MAX), Some("max".to_string()));
    assert_eq!(found(&idx, 0), Some("zero".to_string()));
    assert_eq!(found(&idx, 1), None);
}

#[test]
fn pattern_matches_by_mask() {
    let p = pat("p", 0b0100, 0b0110);
    assert!(p.matched(0b0100));
    assert!(p.matched(0b1101));
    assert!(!p.matched(0b0110));
    let info = p.info();
    assert_eq!(info.name, "p");
    assert_eq!(info.code, 0b0100);
    assert_eq!(info.mask, 0b0110);
}

fn next(state: &mut u64) -> u64 {
    *state = state.wrapping_mul(6364136223846793005).wrapping_add(1442695040888963407);
    *state >> 33
}

// Whether a search for `word` reaches code `a` before code `b`.
fn reached_first(word: u64, a: u64, b: u64) -> bool {
    let p = (a ^ b).trailing_zeros();
    (a >> p) & 1 == (word >> p) & 1
}

#[test]
fn lookup_agrees_with_the_search_order_on_generated_sets() {
    let width = 10u64;
    let mut state = 0x2545_f491_4f6c_dd1du64;
    for round in 0..8 {
        let mut idx = DecodeIndex::new(width);
        let mut stored: Vec<(u64, u64, String)> = Vec::new();
        for i in 0..(8 + round * 12) {
            let mask = (next(&mut state) | next(&mut state)) & 0x3ff;
            let code = next(&mut state) & mask;
            let name = format!("r{}e{}", round, i);
            let taken = stored.iter().any(|(c, _, _)| *c == code);
            match idx.register(pat(&name, code, mask)) {
                Ok(()) => {
                    assert!(!taken);
                    stored.push((code, mask, name));
                }
                Err(RegisterError::Conflict(e)) => {
                    assert!(taken);
                    let first = stored.iter().find(|(c, _, _)| *c == code).unwrap();
                    assert_eq!(e.existing.name, first.2);
                    assert_eq!(e.existing.mask, first.1);
                    assert_eq!(e.incoming.name, name);
                }
                Err(other) => panic!("unexpected {:?}", other),
            }
        }
        let model = |w: u64| -> Option<String> {
            let mut best: Option<&(u64, u64, String)> = None;
            for e in stored.iter().filter(|e| w & e.1 == e.0) {
                best = match best {
                    Some(b) if !reached_first(w, e.0, b.0) => Some(b),
                    _ => Some(e),
                };
            }
            best.map(|e| e.2.clone())
        };
        let before: Vec<Option<String>> = (0..1u64 << width).map(|w| found(&idx, w)).collect();
        idx.freeze();
        for w in 0..1u64 << width {
            let hit = found(&idx, w);
            assert_eq!(hit, before[w as usize]);
            assert_eq!(hit, model(w));
        }
    }
}
