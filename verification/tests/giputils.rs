use extraction_gym::giputils::grc::{Garc, Grc};
use extraction_gym::giputils::gvec::Gvec;
use extraction_gym::giputils::others::{OptionU32, OptionU8};
use extraction_gym::giputils::statistic::{AverageDuration, Case, SuccessRate};

#[test]
fn option_u8_holds_all_but_the_largest_value() {
    assert!(OptionU8::some(0).is_some());
    assert!(OptionU8::some(254).is_some());
    assert!(!OptionU8::some(254).is_none());
    assert_eq!(OptionU8::some(7).get(), 7);
    assert!(OptionU8::some(u8::MAX).is_none());
    assert!(OptionU8::none().is_none());
    assert!(!OptionU8::none().is_some());
    assert!(OptionU8::default().is_none());
    assert_eq!(OptionU8::default(), OptionU8::none());
    assert_eq!(OptionU8::some(3), OptionU8::some(3));
    assert_ne!(OptionU8::some(3), OptionU8::some(4));
}

#[test]
fn option_u32_holds_all_but_the_largest_value() {
    assert!(OptionU32::some(0).is_some());
    assert!(OptionU32::some(u32::MAX - 1).is_some());
    assert_eq!(OptionU32::some(70_000).get(), 70_000);
    assert!(OptionU32::some(u32::MAX).is_none());
    assert!(OptionU32::none().is_none());
    assert!(OptionU32::default().is_none());
    assert_eq!(OptionU32::default(), OptionU32::none());
}

#[test]
fn success_rate_counts() {
    let mut rate = SuccessRate::default();
    assert_eq!(rate.rate_basis_points(), None);
    rate.success();
    rate.fail();
    rate.statistic(true);
    rate.statistic(false);
    rate.statistic(true);
    assert_eq!(rate.success_count(), 3);
    assert_eq!(rate.fail_count(), 2);
    assert_eq!(rate.rate_basis_points(), Some(6000));
    let mut other = SuccessRate::default();
    other.fail();
    let sum = rate.add(other);
    assert_eq!(sum.success_count(), 3);
    assert_eq!(sum.fail_count(), 3);
    assert_eq!(sum.rate_basis_points(), Some(5000));
    rate.add_assign(sum);
    assert_eq!(rate.success_count(), 6);
    assert_eq!(rate.fail_count(), 5);
    assert_eq!(rate.rate_basis_points(), Some(5454));
}

#[test]
fn case_keeps_its_name() {
    assert_eq!(Case::new("adder").name(), "adder");
    assert_eq!(Case::default().name(), "");
}

#[test]
fn gvec_grows_by_reserve() {
    let mut v: Gvec<u32> = Gvec::new();
    assert_eq!(v.len(), 0);
    v.reserve(3);
    assert_eq!(v.len(), 3);
    assert_eq!(*v.get(0), 0);
    v.set(0, 10);
    v.set(2, 30);
    v.reserve(2);
    assert_eq!(v.len(), 3);
    v.reserve(3);
    assert_eq!(v.len(), 3);
    assert_eq!(*v.get(0), 10);
    v.reserve(5);
    assert_eq!(v.len(), 5);
    assert_eq!(*v.get(2), 30);
    assert_eq!(*v.get(4), 0);
}

#[test]
fn gvec_swaps_and_removes() {
    let mut v: Gvec<u8> = Gvec::new();
    v.reserve(4);
    for i in 0..4 {
        v.set(i, (i as u8 + 1) * 10);
    }
    v.swap(0, 3);
    assert_eq!((*v.get(0), *v.get(3)), (40, 10));
    v.swap(1, 1);
    assert_eq!(*v.get(1), 20);
    v.swap_remove(0);
    assert_eq!(v.len(), 3);
    assert_eq!((*v.get(0), *v.get(1), *v.get(2)), (10, 20, 30));
    v.swap_remove(2);
    assert_eq!(v.len(), 2);
    assert_eq!((*v.get(0), *v.get(1)), (10, 20));
}

#[test]
fn shared_values_count_their_owners() {
    let a = Grc::new(5u32);
    assert_eq!(*a.get(), 5);
    assert_eq!(a.count(), 1);
    let b = a.clone();
    assert_eq!(a.count(), 2);
    assert_eq!(*b.get(), 5);
    drop(b);
    assert_eq!(a.count(), 1);
    let x = Garc::new(String::from("s"));
    assert_eq!(x.count(), 1);
    let y = x.clone();
    assert_eq!(y.count(), 2);
    assert_eq!(y.get(), "s");
}

#[test]
fn average_duration_is_the_sum_over_the_count_rounded_down() {
    let mut average = AverageDuration::default();
    assert_eq!(average.average(), None);
    average.add_assign(1_000);
    assert_eq!(average.average(), Some(1_000));
    average.add_assign(2_001);
    assert_eq!(average.average(), Some(1_500));
    average.add_assign(u64::MAX);
    assert_eq!(average.average(), Some((3_001 + u64::MAX as u128) / 3));
}
