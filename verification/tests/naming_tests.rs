use fivepoints_calc::naming::safe_component;
use fivepoints_calc::palette::split_palette;

#[test]
fn safe_component_replaces_other_characters() {
    assert_eq!(safe_component("I26191F"), "I26191F");
    assert_eq!(safe_component("a b/c.d-e_f"), "a_b_c_d-e_f");
    assert_eq!(safe_component("é"), "_");
    assert_eq!(safe_component(""), "unknown");
}

#[test]
fn safe_component_is_idempotent() {
    for s in ["", "x y", "J0137+3309", "é-ü"] {
        let once = safe_component(s);
        assert_eq!(safe_component(&once), once);
    }
}

#[test]
fn palette_chunks() {
    let p = vec![(1, 2, 3, 255), (4, 5, 6, 128)];
    let c = split_palette(&p);
    assert_eq!(c.rgb, vec![1, 2, 3, 4, 5, 6]);
    assert_eq!(c.alpha, vec![255, 128]);
    assert!(c.has_transparency);
    let c = split_palette(&vec![(9, 9, 9, 255)]);
    assert!(!c.has_transparency);
    assert!(split_palette(&Vec::new()).rgb.is_empty());
}
