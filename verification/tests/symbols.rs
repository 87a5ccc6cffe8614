use ae_rs::symbols::{SymbolTable, MAX_SYMBOLS, MAX_TOTAL, SYMBOL_EOF};

#[test]
fn constants_describe_the_alphabet() {
    assert_eq!(MAX_SYMBOLS, 257);
    assert_eq!(SYMBOL_EOF, 256);
    assert_eq!(MAX_TOTAL, 1 << 29);
}

#[test]
fn initial_table_counts_every_symbol_once() {
    let table = SymbolTable::new();
    assert_eq!(table.total(), 257);
    for s in 0..MAX_SYMBOLS {
        assert_eq!(table.get_symbol(s), (s as u64, s as u64 + 1));
    }
}

#[test]
fn initial_table_finds_each_value_at_its_own_symbol() {
    let table = SymbolTable::new();
    for v in 0..257u64 {
        assert_eq!(table.find_symbol(v), (v as usize, v, v + 1));
    }
}

#[test]
fn increment_shifts_every_later_symbol() {
    let mut table = SymbolTable::new();
    table.increment_symbol(0x41);
    assert_eq!(table.total(), 258);
    assert_eq!(table.get_symbol(0x40), (0x40, 0x41));
    assert_eq!(table.get_symbol(0x41), (0x41, 0x43));
    assert_eq!(table.get_symbol(0x42), (0x43, 0x44));
    assert_eq!(table.get_symbol(SYMBOL_EOF), (257, 258));
}

#[test]
fn increment_of_first_and_last_symbol() {
    let mut table = SymbolTable::new();
    table.increment_symbol(0);
    table.increment_symbol(SYMBOL_EOF);
    assert_eq!(table.total(), 259);
    assert_eq!(table.get_symbol(0), (0, 2));
    assert_eq!(table.get_symbol(1), (2, 3));
    assert_eq!(table.get_symbol(SYMBOL_EOF), (257, 259));
}

#[test]
fn find_agrees_with_ranges_after_increments() {
    let mut table = SymbolTable::new();
    let counted = [3usize, 3, 3, 200, 0, 256, 7, 3, 200];
    for s in counted {
        table.increment_symbol(s);
    }
    assert_eq!(table.total(), 257 + counted.len() as u64);
    for s in 0..MAX_SYMBOLS {
        let (lo, hi) = table.get_symbol(s);
        assert!(lo < hi);
        for v in lo..hi {
            assert_eq!(table.find_symbol(v), (s, lo, hi));
        }
    }
    assert_eq!(table.get_symbol(3), (4, 9));
    assert_eq!(table.find_symbol(8), (3, 4, 9));
    assert_eq!(table.find_symbol(9), (4, 9, 10));
}

#[test]
fn table_invariants_hold_after_many_increments() {
    let mut table = SymbolTable::new();
    let mut state: u32 = 12345;
    for n in 0..2000u64 {
        state = state.wrapping_mul(1664525).wrapping_add(1013904223);
        table.increment_symbol((state >> 16) as usize % MAX_SYMBOLS);
        assert_eq!(table.total(), 258 + n);
    }
    assert_eq!(table.get_symbol(0).0, 0);
    assert_eq!(table.get_symbol(SYMBOL_EOF).1, table.total());
    for s in 0..MAX_SYMBOLS {
        let (lo, hi) = table.get_symbol(s);
        assert!(lo < hi);
        if s + 1 < MAX_SYMBOLS {
            assert_eq!(table.get_symbol(s + 1).0, hi);
        }
    }
}
