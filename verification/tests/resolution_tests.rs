use h3o::{Edge, ExtendedResolution, IndexMode, Resolution, Vertex};

#[test]
fn resolution_text() {
    assert_eq!(Resolution::Twelve.to_string(), "12");
    assert_eq!(Resolution::Zero.to_string(), "0");
    assert_eq!(Resolution::from_str("7"), Ok(Resolution::Seven));
    assert_eq!("15".parse::<Resolution>(), Ok(Resolution::Fifteen));
    assert_eq!(
        Resolution::from_str("16").unwrap_err(),
        h3o::error::InvalidResolution { value: Some(16) }
    );
    assert_eq!(
        Resolution::from_str("256").unwrap_err(),
        h3o::error::InvalidResolution { value: None }
    );
    assert_eq!(
        Resolution::from_str("a").unwrap_err(),
        h3o::error::InvalidResolution { value: None }
    );
}

#[test]
fn small_types_text() {
    assert_eq!(Edge::new_unchecked(3).to_string(), "3");
    assert_eq!(Vertex::new_unchecked(5).to_string(), "5");
    assert_eq!(IndexMode::DirectedEdge.to_string(), "DirectedEdge");
    assert_eq!(IndexMode::Cell.to_string(), "Cell");
}

#[test]
fn resolution_succ_pred_law() {
    for r in 0..=15u8 {
        let res = Resolution::try_from(r).unwrap();
        if let Some(next) = res.succ() {
            assert_eq!(next.pred(), Some(res));
            assert_eq!(u8::from(next), r + 1);
        } else {
            assert_eq!(r, 15);
        }
    }
    assert_eq!(Resolution::Zero.pred(), None);
}

#[test]
fn resolution_counts() {
    assert_eq!(Resolution::Zero.cell_count(), 122);
    assert_eq!(Resolution::One.cell_count(), 842);
    assert_eq!(Resolution::Fifteen.cell_count(), 569_707_381_193_162);
    assert_eq!(Resolution::pentagon_count(), 12);
    assert!(Resolution::Three.is_class3());
    assert!(!Resolution::Four.is_class3());
    assert_eq!(h3o::max_grid_disk_size(1), 7);
    assert_eq!(h3o::max_grid_disk_size(2), 19);
    assert_eq!(h3o::max_grid_disk_size(13_780_510), 569_707_381_193_162);
}

#[test]
fn extended_resolution_keeps_the_class() {
    for res in 0..=15u8 {
        let r = Resolution::try_from(res).unwrap();
        assert_eq!(ExtendedResolution::from(r).is_class3(), r.is_class3());
        assert_eq!(ExtendedResolution::down(r).is_class3(), !r.is_class3());
        assert_eq!(r.is_class3(), res % 2 == 1);
    }
    assert!(Resolution::Eleven.is_class3() && !Resolution::Two.is_class3());
}
