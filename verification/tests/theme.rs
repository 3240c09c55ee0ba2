use overlook::theme::{kind_color_index, PALETTE_SIZE};

#[test]
fn a_keyword_always_gets_the_same_colour() {
    assert_eq!(kind_color_index("anchor"), kind_color_index("anchor"));
    for kind in ["anchor", "skill", "build-skill", "piton-config", "concept", ""] {
        assert!(kind_color_index(kind) < PALETTE_SIZE);
    }
}

fn fnv(kind: &str) -> u32 {
    let mut hash: u32 = 2166136261;
    for byte in kind.as_bytes() {
        hash ^= *byte as u32;
        hash = hash.wrapping_mul(16777619);
    }
    hash
}

#[test]
fn the_colour_comes_from_the_fnv_hash_of_the_keyword() {
    for kind in ["anchor", "skill", "shape", "ünïcode"] {
        assert_eq!(kind_color_index(kind), fnv(kind) as usize % PALETTE_SIZE);
    }
    assert_eq!(kind_color_index(""), 2166136261usize % 6);
}
