use catchment::region::{first_letters, valid_region, RegionRecord};

#[test]
fn welsh_postcode_areas_are_rejected() {
    assert!(!valid_region("LL57 2DG"));
    assert!(!valid_region("SY23 3AR"));
    assert!(!valid_region("LD1 5DB"));
    assert!(!valid_region("SA1 1NW"));
    assert!(!valid_region("NP20 4UR"));
    assert!(!valid_region("CF10 1EP"));
}

#[test]
fn other_postcode_areas_are_kept() {
    assert!(valid_region("AB10 1AB"));
    assert!(valid_region("M1 1AE"));
    assert!(valid_region("LX1"));
    assert!(valid_region("SB1"));
    assert!(valid_region("L"));
    assert!(valid_region(""));
}

#[test]
fn first_letters_takes_the_leading_run() {
    assert_eq!(first_letters("AB12 3CD"), Some("AB".to_string()));
    assert_eq!(first_letters("M1"), Some("M".to_string()));
    assert_eq!(first_letters("ABC"), Some("ABC".to_string()));
    assert_eq!(first_letters("1AB"), None);
    assert_eq!(first_letters(""), None);
}

#[test]
fn region_record_keeps_its_fields() {
    let rec = RegionRecord {
        pcode_area: "AB".to_string(),
        area_name: "Aberdeen".to_string(),
        region: "Scotland".to_string(),
    };
    assert_eq!(rec.pcode_area, "AB");
    assert_eq!(rec.area_name, "Aberdeen");
    assert_eq!(rec.region, "Scotland");
}
