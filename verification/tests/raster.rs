use tile_painting::raster::Raster;

#[test]
fn a_raster_takes_one_colour_per_pixel() {
    let raster = Raster::new(2, 1, vec![(1, 2, 3), (4, 5, 6)]).unwrap();
    assert_eq!(raster.width(), 2);
    assert_eq!(raster.height(), 1);
    assert_eq!(raster.pixels(), &vec![(1, 2, 3), (4, 5, 6)]);
}

#[test]
fn a_raster_refuses_any_other_number_of_colours() {
    assert!(Raster::new(2, 2, vec![(0, 0, 0); 3]).is_none());
    assert!(Raster::new(2, 2, vec![(0, 0, 0); 5]).is_none());
    assert!(Raster::new(0, 2, vec![(0, 0, 0)]).is_none());
    assert!(Raster::new(0, 2, vec![]).is_some());
    assert!(Raster::new(u32::MAX, u32::MAX, vec![]).is_none());
}

#[test]
fn pixels_are_stored_row_by_row_from_the_top() {
    let raster = Raster::new(2, 2, vec![(1, 0, 0), (2, 0, 0), (3, 0, 0), (4, 0, 0)]).unwrap();
    assert_eq!(raster.get_pixel(0, 0), Some((1, 0, 0)));
    assert_eq!(raster.get_pixel(1, 0), Some((2, 0, 0)));
    assert_eq!(raster.get_pixel(0, 1), Some((3, 0, 0)));
    assert_eq!(raster.get_pixel(1, 1), Some((4, 0, 0)));
    assert_eq!(raster.get_pixel(2, 0), None);
    assert_eq!(raster.get_pixel(0, 2), None);
}
