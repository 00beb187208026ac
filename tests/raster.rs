use h3ron_graph::error::Error;
use h3ron_graph::raster::{
    AxisOrder, AxisOrderKind, BoundaryWalk, ResolutionSearchMode, ResolutionSearchModeKind,
};

#[test]
fn axis_order_names() {
    assert_eq!(AxisOrder::from_str("yx").unwrap().inner, AxisOrderKind::YX);
    assert_eq!(AxisOrder::from_str("YX").unwrap().inner, AxisOrderKind::YX);
    assert_eq!(AxisOrder::from_str("xy").unwrap().inner, AxisOrderKind::XY);
    assert_eq!(AxisOrder::from_str("XY").unwrap().inner, AxisOrderKind::XY);
    assert_eq!(AxisOrder::from_str("Xy"), Err(Error::UnknownAxisOrder));
    assert_eq!(AxisOrder::from_str(""), Err(Error::UnknownAxisOrder));
}

#[test]
fn resolution_search_mode_names() {
    assert_eq!(
        ResolutionSearchMode::from_str("min_diff").unwrap().inner,
        ResolutionSearchModeKind::MinDiff
    );
    assert_eq!(
        ResolutionSearchMode::from_str("min-diff").unwrap().inner,
        ResolutionSearchModeKind::MinDiff
    );
    assert_eq!(
        ResolutionSearchMode::from_str("smaller_than_pixel").unwrap().inner,
        ResolutionSearchModeKind::SmallerThanPixel
    );
    assert_eq!(
        ResolutionSearchMode::from_str("smaller-than-pixel").unwrap().inner,
        ResolutionSearchModeKind::SmallerThanPixel
    );
    assert_eq!(
        ResolutionSearchMode::from_str("min diff"),
        Err(Error::UnknownResolutionSearchMode)
    );
    assert_eq!(Error::UnknownResolutionSearchMode.message(), "unknown resolution search mode");
}

#[test]
fn boundary_walk_closed_ring() {
    let mut walk = BoundaryWalk::new(3, true);
    assert_eq!(walk.remaining(), 4);
    let mut seen = vec![];
    while let Some(v) = walk.next_vertex() {
        seen.push(v);
    }
    assert_eq!(seen, vec![0, 1, 2, 0]);
    assert_eq!(walk.remaining(), 0);
    assert_eq!(walk.num_verts(), 3);
}

#[test]
fn boundary_walk_open_ring() {
    let mut walk = BoundaryWalk::new(3, false);
    assert_eq!(walk.remaining(), 3);
    assert_eq!(walk.next_vertex(), Some(0));
    assert_eq!(walk.remaining(), 2);
    assert_eq!(walk.next_vertex(), Some(1));
    assert_eq!(walk.next_vertex(), Some(2));
    assert_eq!(walk.next_vertex(), None);
}

#[test]
fn boundary_walk_without_vertices() {
    let mut walk = BoundaryWalk::new(0, true);
    assert_eq!(walk.remaining(), 0);
    assert_eq!(walk.next_vertex(), None);
}
