use object_log::s3::check_range_body;
use object_log::{MultipartPolicy, ObjectLogError, RangeRead, plan_range_read};

#[test]
fn default_multipart_policy() {
    let p = MultipartPolicy::new();
    assert_eq!(p.threshold(), 16 * 1024 * 1024);
    assert_eq!(p.part_size(), 8 * 1024 * 1024);
    assert!(!p.uses_multipart(16 * 1024 * 1024));
    assert!(p.uses_multipart(16 * 1024 * 1024 + 1));
}

#[test]
fn part_size_is_raised_to_the_s3_minimum() {
    let p = MultipartPolicy::new().with_multipart(100, 10);
    assert_eq!(p.threshold(), 100);
    assert_eq!(p.part_size(), 5 * 1024 * 1024);
    let q = MultipartPolicy::new().with_multipart(0, 6 * 1024 * 1024);
    assert_eq!(q.part_size(), 6 * 1024 * 1024);
}

#[test]
fn parts_cut_the_object_in_order() {
    let p = MultipartPolicy::new().with_multipart(0, 0);
    let ps = 5 * 1024 * 1024;
    assert_eq!(p.part_ranges(0), vec![]);
    assert_eq!(p.part_ranges(ps), vec![(0, ps)]);
    assert_eq!(p.part_ranges(2 * ps + 1), vec![(0, ps), (ps, 2 * ps), (2 * ps, 2 * ps + 1)]);
}

#[test]
fn range_reads_are_planned() {
    assert!(matches!(plan_range_read(&(0..0)), Ok(RangeRead::Empty)));
    match plan_range_read(&(6..11)) {
        Ok(RangeRead::Header(h)) => assert_eq!(h, "bytes=6-10"),
        _ => panic!("expected a header"),
    }
    assert!(matches!(
        plan_range_read(&(5..2)),
        Err(ObjectLogError::RangeOutOfBounds(m)) if m == "start 5 > end 2"
    ));
}

#[test]
fn short_range_bodies_are_out_of_bounds() {
    assert_eq!(check_range_body(&(6..11), 5), Ok(()));
    assert_eq!(
        check_range_body(&(6..20), 5),
        Err(ObjectLogError::RangeOutOfBounds("end 20 > len 11".to_string()))
    );
}
