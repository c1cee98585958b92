use thread_affinity::affinity::{
    cpuset_from_ids, errno_decimal, get_affinity_result, ids_from_cpuset, set_affinity_result,
    u64_decimal,
};
use thread_affinity::cpuset::{CPU_ISSET, CPU_SETSIZE, CpuSet};

#[test]
fn scenario_cores_one_and_three() {
    let set = cpuset_from_ids(&[1, 3]);
    assert_eq!(ids_from_cpuset(&set), vec![1, 3]);
}

#[test]
fn scenario_cores_zero_through_three() {
    let set = cpuset_from_ids(&[0, 1, 2, 3]);
    assert_eq!(ids_from_cpuset(&set), vec![0, 1, 2, 3]);
}

#[test]
fn round_trip_empty() {
    let set = cpuset_from_ids(&[]);
    assert_eq!(ids_from_cpuset(&set), Vec::<usize>::new());
}

#[test]
fn round_trip_boundaries() {
    let set = cpuset_from_ids(&[0, CPU_SETSIZE - 1]);
    assert_eq!(ids_from_cpuset(&set), vec![0, CPU_SETSIZE - 1]);
}

#[test]
fn round_trip_sorts_and_deduplicates() {
    let set = cpuset_from_ids(&[3, 1, 3, 1]);
    assert_eq!(ids_from_cpuset(&set), vec![1, 3]);
}

#[test]
fn build_marks_exactly_the_listed_cores() {
    let set = cpuset_from_ids(&[2, 5, 64, 255]);
    for n in 0..CPU_SETSIZE {
        assert_eq!(CPU_ISSET(n, &set), n == 2 || n == 5 || n == 64 || n == 255);
    }
}

#[test]
fn set_affinity_twice_observes_the_same() {
    let first = cpuset_from_ids(&[2, 5]);
    let second = cpuset_from_ids(&[2, 5]);
    assert_eq!(first.words(), second.words());
    assert_eq!(ids_from_cpuset(&first), ids_from_cpuset(&second));
}

#[test]
fn set_affinity_success_on_zero_return() {
    assert!(set_affinity_result(0).is_ok());
}

#[test]
fn set_affinity_error_carries_code_and_operation() {
    let e = set_affinity_result(22).unwrap_err();
    assert_eq!(e.code, 22);
    assert_eq!(e.operation, "sched_setaffinity");
    assert_eq!(e.message(), "sched_setaffinity failed with errno 22");
}

#[test]
fn get_affinity_error_carries_code_and_operation() {
    let set = CpuSet::new();
    let e = get_affinity_result(11, &set).unwrap_err();
    assert_eq!(e.code, 11);
    assert_eq!(e.operation, "sched_getaffinity");
    assert_eq!(e.message(), "sched_getaffinity failed with errno 11");
}

#[test]
fn get_affinity_success_scans_the_mask() {
    let set = cpuset_from_ids(&[1, 3]);
    assert_eq!(get_affinity_result(0, &set).unwrap(), vec![1, 3]);
}

#[test]
fn decimal_rendering_exact_values() {
    assert_eq!(u64_decimal(0), "0");
    assert_eq!(u64_decimal(7), "7");
    assert_eq!(u64_decimal(10), "10");
    assert_eq!(u64_decimal(256), "256");
    assert_eq!(u64_decimal(18446744073709551615), "18446744073709551615");
    assert_eq!(errno_decimal(-22), "-22");
    assert_eq!(errno_decimal(0), "0");
    assert_eq!(errno_decimal(2147483647), "2147483647");
    assert_eq!(errno_decimal(-2147483648), "-2147483648");
}
