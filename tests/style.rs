use libchartium::color::{hash_pair, ResolvedColor};
use libchartium::style::{
    OrUnset, TraceLineStyle, TracePaletteIndex, TracePointsStyle, TraceStylePatch,
    TraceStyleSheetPatchBuilder,
};

#[test]
fn or_unset_fallbacks() {
    assert_eq!(OrUnset::Value(3u32).unwrap_or(2), 3);
    assert_eq!(OrUnset::<u32>::Unset.unwrap_or(2), 2);
    assert_eq!(OrUnset::<TracePointsStyle>::Unset.unwrap_or_default(), TracePointsStyle::Hidden);
    assert_eq!(*OrUnset::<TraceLineStyle>::Unset.ref_or_default(), TraceLineStyle::Solid);
    assert_eq!(*OrUnset::<TracePaletteIndex>::Unset.or_default(), TracePaletteIndex::Auto);
    assert_eq!(
        *OrUnset::Value(TracePaletteIndex::Index(4)).ref_or_default(),
        TracePaletteIndex::Index(4)
    );
    assert_eq!(OrUnset::Value(String::from("a")).set_or(String::from("b")), "a");
    assert_eq!(OrUnset::<String>::Unset.set_or(String::from("b")), "b");
    assert!(TraceLineStyle::Hidden.is_solid());
    assert!(!TraceLineStyle::Dashed([1, 2]).is_solid());
}

#[test]
fn patch_emptiness() {
    let mut p = TraceStylePatch::empty();
    assert!(p.is_empty());
    p.z_index = Some(OrUnset::Value(2.0f64.to_bits()));
    assert!(!p.is_empty());
}

#[test]
fn sheet_patch_builder_keeps_last_patch_per_trace() {
    let mut b = TraceStyleSheetPatchBuilder::base(TraceStylePatch::empty());
    let mut wide = TraceStylePatch::empty();
    wide.line_width = Some(OrUnset::Value(5));
    b.add(3, TraceStylePatch::empty());
    b.add(3, wide.clone());
    b.add(4, TraceStylePatch::empty());
    let sheet = b.collect();
    assert!(sheet.base.is_empty());
    assert_eq!(sheet.traces.len(), 2);
    assert_eq!(sheet.traces.get(&3), Some(&wide));
}

#[test]
fn colour_bytes_round_trip() {
    let c = ResolvedColor::from_bytes([1, 2, 3, 4]);
    assert_eq!(c.red, 1);
    assert_eq!(c.alpha, 4);
    assert_eq!(c.as_bytes(), [1, 2, 3, 4]);
}

#[test]
fn pair_hash() {
    assert_eq!(hash_pair(0, 5), 5);
    assert_eq!(hash_pair(2, 1), 2147483655);
    assert_eq!(hash_pair(usize::MAX, 0), usize::MAX.wrapping_mul(1073741827));
}
