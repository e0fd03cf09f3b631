use firefighter::geometry::{CompassDirection, Placement, Side};

fn side(value: f64, bound: f64) -> Side {
    if value < bound {
        Side::Below
    } else if value > bound {
        Side::Above
    } else if value == bound {
        Side::At
    } else {
        Side::Unordered
    }
}

fn place(lat: f64, lon: f64, bounds: (f64, f64, f64, f64)) -> Placement {
    let (min_lat, max_lat, min_lon, max_lon) = bounds;
    Placement {
        lat_to_min: side(lat, min_lat),
        lat_to_max: side(lat, max_lat),
        lon_to_min: side(lon, min_lon),
        lon_to_max: side(lon, max_lon),
    }
}

fn direction_by_comparison(lat: f64, lon: f64, bounds: (f64, f64, f64, f64)) -> CompassDirection {
    let (min_lat, max_lat, min_lon, max_lon) = bounds;
    if lon >= min_lon && lon <= max_lon && lat > max_lat {
        CompassDirection::North
    } else if lon > max_lon && lat > max_lat {
        CompassDirection::NorthEast
    } else if lon > max_lon && lat >= min_lat && lat <= max_lat {
        CompassDirection::East
    } else if lon > max_lon && lat < min_lat {
        CompassDirection::SouthEast
    } else if lon >= min_lon && lon <= max_lon && lat < min_lat {
        CompassDirection::South
    } else if lon < min_lon && lat < min_lat {
        CompassDirection::SouthWest
    } else if lon < min_lon && lat >= min_lat && lat <= max_lat {
        CompassDirection::West
    } else if lon < min_lon && lat > max_lat {
        CompassDirection::NorthWest
    } else {
        CompassDirection::Zero
    }
}

const BOUNDS: (f64, f64, f64, f64) = (48.0, 49.0, 9.0, 10.0);

#[test]
fn directions_around_a_rectangle() {
    let cases = [
        (49.5, 9.5, CompassDirection::North),
        (49.5, 10.5, CompassDirection::NorthEast),
        (48.5, 10.5, CompassDirection::East),
        (47.5, 10.5, CompassDirection::SouthEast),
        (47.5, 9.5, CompassDirection::South),
        (47.5, 8.5, CompassDirection::SouthWest),
        (48.5, 8.5, CompassDirection::West),
        (49.5, 8.5, CompassDirection::NorthWest),
        (48.5, 9.5, CompassDirection::Zero),
        (48.0, 9.0, CompassDirection::Zero),
        (49.0, 10.0, CompassDirection::Zero),
        (49.5, 9.0, CompassDirection::North),
        (48.0, 10.5, CompassDirection::East),
    ];
    for (lat, lon, expected) in cases {
        assert_eq!(place(lat, lon, BOUNDS).get_relative_compass_direction(), expected);
        assert_eq!(direction_by_comparison(lat, lon, BOUNDS), expected);
        assert_eq!(
            place(lat, lon, BOUNDS).is_located_in(),
            expected == CompassDirection::Zero
        );
    }
}

#[test]
fn directions_agree_with_comparisons_on_any_bounds() {
    let values = [f64::NEG_INFINITY, -1.0, 0.0, 0.5, 1.0, 2.0, f64::INFINITY, f64::NAN];
    for lat in values {
        for lon in values {
            for min_lat in values {
                for max_lat in values {
                    for min_lon in [0.0, 1.0, f64::NAN] {
                        for max_lon in [0.0, 1.0, f64::NAN] {
                            let bounds = (min_lat, max_lat, min_lon, max_lon);
                            let placement = place(lat, lon, bounds);
                            assert_eq!(
                                placement.get_relative_compass_direction(),
                                direction_by_comparison(lat, lon, bounds)
                            );
                            assert_eq!(
                                placement.is_located_in(),
                                lat >= min_lat && lat <= max_lat && lon >= min_lon && lon <= max_lon
                            );
                        }
                    }
                }
            }
        }
    }
}

#[test]
fn unordered_point_lies_nowhere() {
    let placement = place(f64::NAN, f64::NAN, BOUNDS);
    assert_eq!(placement.get_relative_compass_direction(), CompassDirection::Zero);
    assert!(!placement.is_located_in());
}
