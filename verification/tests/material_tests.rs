use bifrons::material::{MaterialMode, RepeatOp};

type Mode = MaterialMode<(u8, u8), (u32, u32)>;

#[test]
fn rotation_quarter_turns() {
    let rot = RepeatOp::<u8>::Rotate { quarters: 1 };
    assert_eq!(rot.quarter_turns(0, 0), 0);
    assert_eq!(rot.quarter_turns(1, 2), 3);
    assert_eq!(rot.quarter_turns(2, 3), 1);
    assert_eq!(rot.quarter_turns(-1, 0), 3);
    let neg = RepeatOp::<u8>::Rotate { quarters: -3 };
    assert_eq!(neg.quarter_turns(1, 0), 1);
    assert_eq!(RepeatOp::<u8>::Identity.quarter_turns(5, 5), 0);
    assert_eq!(RepeatOp::AtlasRandom(vec![1u8]).quarter_turns(5, 5), 0);
    let rr = RepeatOp::<u8>::RotateRandom { quarters: 2 };
    assert_eq!(rr.quarter_turns_with(0, 0, 3), 2);
    assert_eq!(rr.quarter_turns_with(0, 0, 2), 0);
    for _ in 0..20 {
        let t = rr.quarter_turns(0, 0);
        assert!(t == 0 || t == 2);
    }
}

#[test]
fn atlas_index_draws_from_first_nonempty_list() {
    let stretch: Mode = MaterialMode::Stretch;
    assert_eq!(stretch.atlas_index((9, 9)), (9, 9));
    let none: Mode = MaterialMode::Repeat { step: (1, 1), on_step: vec![RepeatOp::Identity, RepeatOp::AtlasRandom(vec![])] };
    assert_eq!(none.atlas_index((9, 9)), (9, 9));
    assert!(none.atlas_cells().is_none());
    let one: Mode = MaterialMode::Repeat {
        step: (1, 1),
        on_step: vec![RepeatOp::AtlasRandom(vec![]), RepeatOp::AtlasRandom(vec![(1, 2)]), RepeatOp::AtlasRandom(vec![(7, 7)])],
    };
    assert_eq!(one.atlas_index((9, 9)), (1, 2));
    let many: Mode = MaterialMode::Repeat {
        step: (1, 1),
        on_step: vec![RepeatOp::AtlasRandom(vec![(0, 0), (0, 1), (1, 0)])],
    };
    for _ in 0..20 {
        let c = many.atlas_index((9, 9));
        assert!(c == (0, 0) || c == (0, 1) || c == (1, 0));
    }
    assert!(matches!(Mode::default(), MaterialMode::Stretch));
}

#[test]
fn atlas_index_with_a_given_pick() {
    let many: Mode = MaterialMode::Repeat {
        step: (1, 1),
        on_step: vec![RepeatOp::Identity, RepeatOp::AtlasRandom(vec![(0, 0), (0, 1), (1, 0)])],
    };
    assert_eq!(many.atlas_index_with((9, 9), 2), (1, 0));
    assert_eq!(many.atlas_index_with((9, 9), 0), (0, 0));
    let stretch: Mode = MaterialMode::Stretch;
    assert_eq!(stretch.atlas_index_with((9, 9), 5), (9, 9));
}
