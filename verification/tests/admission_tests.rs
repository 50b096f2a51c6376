use minihttp::admission::Admission;
use minihttp::response::overload_response;

#[test]
fn permits_return_to_zero_after_completed_connections() {
    let mut adm = Admission::new(2, 4);
    assert_eq!(adm.outstanding, 0);
    let a = adm.try_admit();
    let b = adm.try_admit();
    assert!(a.is_some() && b.is_some());
    assert_eq!(adm.outstanding, 2);
    // The pool is exhausted: the next arrival is shed, not queued.
    assert_eq!(adm.try_admit(), None);
    assert_eq!(adm.outstanding, 2);
    adm.release();
    assert_eq!(adm.outstanding, 1);
    let c = adm.try_admit();
    assert!(c.is_some());
    adm.release();
    adm.release();
    assert_eq!(adm.outstanding, 0);
}

#[test]
fn outstanding_never_exceeds_capacity() {
    let mut adm = Admission::new(3, 1);
    for _ in 0..10 {
        adm.try_admit();
        assert!(adm.outstanding <= 3);
    }
    assert_eq!(adm.outstanding, 3);
}

#[test]
fn capacity_one_second_connection_is_shed_with_exact_503() {
    // Two connections arrive with a single permit: one is admitted and
    // dispatched to a lane, the other gets the fixed overload bytes.
    let mut adm = Admission::new(1, 2);
    let first = adm.try_admit();
    assert_eq!(first, Some(0));
    let second = adm.try_admit();
    assert_eq!(second, None);
    let shed_bytes = overload_response();
    let expected =
        "HTTP/1.1 503 Service Unavailable\r\nContent-Length: 0\r\nConnection: close\r\n\r\n";
    assert_eq!(shed_bytes, expected.as_bytes().to_vec());
    // Only the admitted connection ever holds a permit.
    assert_eq!(adm.outstanding, 1);
    adm.release();
    assert_eq!(adm.outstanding, 0);
}

#[test]
fn admissions_rotate_round_robin() {
    let mut adm = Admission::new(100, 3);
    let mut lanes = Vec::new();
    for _ in 0..7 {
        lanes.push(adm.try_admit().unwrap());
    }
    assert_eq!(lanes, vec![0, 1, 2, 0, 1, 2, 0]);
    // Seven admissions over three lanes: shares are ceil(7/3) and
    // floor(7/3).
    let mut counts = [0usize; 3];
    for lane in lanes {
        counts[lane] += 1;
    }
    assert_eq!(counts, [3, 2, 2]);
}

#[test]
fn rejected_arrivals_still_advance_the_rotation() {
    let mut adm = Admission::new(1, 2);
    assert_eq!(adm.try_admit(), Some(0));
    assert_eq!(adm.try_admit(), None);
    adm.release();
    // The pointer moved past lane 1 while the pool was exhausted.
    assert_eq!(adm.try_admit(), Some(0));
}
