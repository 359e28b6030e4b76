use anise::almanac::{
    Almanac, BPCSummaryRecord, Epoch, Frame, OrientationError, PlanetaryData, BPC, ECLIPJ2000,
    J2000,
};
use anise::tree::MAX_TREE_DEPTH;

const ITRF93: i32 = 3000;
const IAU_EARTH: i32 = 399;
const IAU_MOON: i32 = 301;

fn ep(s: i128) -> Epoch {
    Epoch { et_nanoseconds: s * 1_000_000_000 }
}

fn summary(frame_id: i32, inertial_frame_id: i32, start: i128, end: i128) -> BPCSummaryRecord {
    BPCSummaryRecord {
        start_epoch: ep(start),
        end_epoch: ep(end),
        frame_id,
        inertial_frame_id,
        data_type_i: 2,
        start_idx: 1,
        end_idx: 100,
    }
}

fn planetary(pairs: &[(i32, i32)]) -> Vec<PlanetaryData> {
    pairs.iter().map(|&(id, parent_id)| PlanetaryData { id, parent_id }).collect()
}

#[test]
fn test_find_root() {
    let mut almanac = Almanac::new();
    almanac.set_planetary_data(planetary(&[(IAU_EARTH, J2000), (IAU_MOON, J2000), (10, J2000)]));
    assert_eq!(almanac.try_find_orientation_root(), Ok(J2000));
}

#[test]
fn empty_almanac_has_no_root() {
    let almanac = Almanac::new();
    assert_eq!(almanac.try_find_orientation_root(), Err(OrientationError::NoOrientationsLoaded));
}

#[test]
fn root_is_smallest_absolute_id_and_ecliptic_reads_as_j2000() {
    let mut almanac = Almanac::new();
    almanac.load_bpc(BPC { summaries: vec![summary(ITRF93, 25, 0, 100)] }).unwrap();
    almanac.set_planetary_data(planetary(&[(25, -20)]));
    assert_eq!(almanac.try_find_orientation_root(), Ok(-20));

    let mut ecl = Almanac::new();
    ecl.load_bpc(BPC { summaries: vec![summary(ITRF93, ECLIPJ2000, 0, 100)] }).unwrap();
    assert_eq!(ecl.try_find_orientation_root(), Ok(J2000));
}

#[test]
fn single_bpc_path_to_root() {
    let mut almanac = Almanac::new();
    almanac.load_bpc(BPC { summaries: vec![summary(ITRF93, J2000, -100, 100)] }).unwrap();
    let (len, path) = almanac
        .orientation_path_to_root(Frame::from_ephem_orient(399, ITRF93), ep(0))
        .unwrap();
    assert_eq!(len, 1);
    assert_eq!(path[0], Some(J2000));
    assert!(path[1..].iter().all(|p| p.is_none()));

    let (len, _) = almanac
        .orientation_path_to_root(Frame::from_ephem_orient(399, J2000), ep(0))
        .unwrap();
    assert_eq!(len, 0);
}

#[test]
fn ecliptic_hop_adds_j2000() {
    let mut almanac = Almanac::new();
    almanac
        .load_bpc(BPC { summaries: vec![summary(ITRF93, ECLIPJ2000, 0, 100), summary(5, J2000, 0, 100)] })
        .unwrap();
    let (len, path) = almanac
        .orientation_path_to_root(Frame::from_ephem_orient(399, ITRF93), ep(10))
        .unwrap();
    assert_eq!(len, 2);
    assert_eq!(&path[..2], &[Some(ECLIPJ2000), Some(J2000)]);
}

#[test]
fn out_of_coverage_falls_back_to_planetary_data() {
    let mut almanac = Almanac::new();
    almanac.load_bpc(BPC { summaries: vec![summary(ITRF93, J2000, 0, 100)] }).unwrap();
    assert_eq!(
        almanac.bpc_summary_at_epoch(ITRF93, ep(101)),
        Err(OrientationError::OutOfCoverage { id: ITRF93, epoch: ep(101) })
    );
    assert_eq!(
        almanac.orientation_path_to_root(Frame::from_ephem_orient(399, ITRF93), ep(101)),
        Err(OrientationError::OutOfCoverage { id: ITRF93, epoch: ep(101) })
    );
    almanac.set_planetary_data(planetary(&[(ITRF93, 42), (42, J2000)]));
    let (len, path) = almanac
        .orientation_path_to_root(Frame::from_ephem_orient(399, ITRF93), ep(101))
        .unwrap();
    assert_eq!(len, 2);
    assert_eq!(&path[..2], &[Some(42), Some(J2000)]);
}

#[test]
fn later_kernel_shadows_earlier_and_unloading_restores() {
    let mut almanac = Almanac::new();
    almanac.load_bpc(BPC { summaries: vec![summary(ITRF93, J2000, 0, 100)] }).unwrap();
    almanac.load_bpc(BPC { summaries: vec![summary(ITRF93, 77, 50, 150), summary(77, J2000, 0, 200)] }).unwrap();
    let (s, f, i) = almanac.bpc_summary_at_epoch(ITRF93, ep(60)).unwrap();
    assert_eq!((s.inertial_frame_id, f, i), (77, 1, 0));
    // outside the later kernel's coverage the earlier one answers
    let (s, f, _) = almanac.bpc_summary_at_epoch(ITRF93, ep(20)).unwrap();
    assert_eq!((s.inertial_frame_id, f), (J2000, 0));
    almanac.unload_last_bpc().unwrap();
    let (s, f, i) = almanac.bpc_summary_at_epoch(ITRF93, ep(60)).unwrap();
    assert_eq!((s.inertial_frame_id, f, i), (J2000, 0, 0));
}

fn chain(hops: i32) -> Almanac {
    // frame 100 + k is oriented against 100 + k + 1, the last against J2000
    let mut summaries = Vec::new();
    for k in 0..hops - 1 {
        summaries.push(summary(100 + k, 100 + k + 1, 0, 1000));
    }
    summaries.push(summary(100 + hops - 1, J2000, 0, 1000));
    let mut almanac = Almanac::new();
    almanac.load_bpc(BPC { summaries }).unwrap();
    almanac
}

#[test]
fn deep_chain_exceeds_depth() {
    let nine = chain(9);
    assert_eq!(
        nine.orientation_path_to_root(Frame::from_ephem_orient(0, 100), ep(1)),
        Err(OrientationError::MaxRecursionDepth)
    );
    let eight = chain(MAX_TREE_DEPTH as i32);
    let (len, path) = eight
        .orientation_path_to_root(Frame::from_ephem_orient(0, 100), ep(1))
        .unwrap();
    assert_eq!(len, 8);
    assert_eq!(path[7], Some(J2000));
    assert_eq!(path[0], Some(101));
}

fn tree() -> Almanac {
    // 10 -> 11 -> 12 -> J2000 and 20 -> 12
    let mut almanac = Almanac::new();
    almanac
        .load_bpc(BPC {
            summaries: vec![
                summary(10, 11, 0, 100),
                summary(11, 12, 0, 100),
                summary(12, J2000, 0, 100),
                summary(20, 12, 0, 100),
            ],
        })
        .unwrap();
    almanac
}

#[test]
fn common_path_of_branches() {
    let almanac = tree();
    let a = Frame::from_ephem_orient(0, 10);
    let b = Frame::from_ephem_orient(0, 20);
    let (len, path, node) = almanac.common_orientation_path(a, b, ep(5)).unwrap();
    assert_eq!((len, node), (1, 12));
    assert_eq!(path[0], Some(11));
}

#[test]
fn common_path_when_one_frame_is_ancestor() {
    let almanac = tree();
    let a = Frame::from_ephem_orient(0, 10);
    let b = Frame::from_ephem_orient(0, 12);
    let (len, path, node) = almanac.common_orientation_path(a, b, ep(5)).unwrap();
    assert_eq!((len, node), (1, 12));
    assert_eq!(path[0], Some(12));
    let (len, path, node) = almanac.common_orientation_path(b, a, ep(5)).unwrap();
    assert_eq!((len, node), (1, 12));
    assert_eq!(path[0], Some(12));
}

#[test]
fn common_path_with_root_and_self() {
    let almanac = tree();
    let a = Frame::from_ephem_orient(0, 10);
    let root = Frame::from_ephem_orient(0, J2000);
    let (len, path, node) = almanac.common_orientation_path(a, root, ep(5)).unwrap();
    assert_eq!((len, node), (3, J2000));
    assert_eq!(&path[..3], &[Some(11), Some(12), Some(J2000)]);
    let (len, _, node) = almanac.common_orientation_path(a, a, ep(5)).unwrap();
    assert_eq!((len, node), (0, 10));
    // same orientation, other origins: an empty path to that orientation
    let other_root = Frame::from_ephem_orient(301, J2000);
    let (len, path, node) = almanac.common_orientation_path(root, other_root, ep(5)).unwrap();
    assert_eq!((len, node), (0, J2000));
    assert!(path.iter().all(|p| p.is_none()));
    let b = Frame::from_ephem_orient(399, 10);
    let (len, _, node) = almanac.common_orientation_path(a, b, ep(5)).unwrap();
    assert_eq!((len, node), (0, 10));
}

#[test]
fn j2000_is_root_whenever_it_appears() {
    let mut almanac = Almanac::new();
    almanac
        .load_bpc(BPC { summaries: vec![summary(ITRF93, -1, 0, 100), summary(-1, J2000, 0, 100)] })
        .unwrap();
    assert_eq!(almanac.try_find_orientation_root(), Ok(J2000));
}

#[test]
fn root_is_an_observed_id_or_an_error() {
    let mut almanac = Almanac::new();
    almanac.load_bpc(BPC { summaries: vec![summary(ITRF93, i32::MIN, 0, 100)] }).unwrap();
    assert_eq!(almanac.try_find_orientation_root(), Ok(i32::MIN));

    let mut empty_summaries = Almanac::new();
    let mut s = summary(ITRF93, J2000, 0, 100);
    s.end_idx = s.start_idx;
    empty_summaries.load_bpc(BPC { summaries: vec![s] }).unwrap();
    assert_eq!(
        empty_summaries.try_find_orientation_root(),
        Err(OrientationError::NoOrientationRoot)
    );
    assert_eq!(
        empty_summaries.orientation_path_to_root(Frame::from_ephem_orient(399, ITRF93), ep(1)),
        Err(OrientationError::NoOrientationRoot)
    );
    assert_eq!(
        Almanac::new().orientation_path_to_root(Frame::from_ephem_orient(399, ITRF93), ep(1)),
        Err(OrientationError::NoOrientationsLoaded)
    );
}

#[test]
fn one_second_past_coverage_is_out_of_coverage() {
    let mut almanac = Almanac::new();
    almanac.load_bpc(BPC { summaries: vec![summary(ITRF93, J2000, 0, 100)] }).unwrap();
    let past = Epoch { et_nanoseconds: 101_000_000_000 };
    assert_eq!(
        almanac.orientation_path_to_root(Frame::from_ephem_orient(399, ITRF93), past),
        Err(OrientationError::OutOfCoverage { id: ITRF93, epoch: past })
    );
}

#[test]
fn ecliptic_hop_is_built_in_at_any_depth() {
    let mut almanac = Almanac::new();
    almanac
        .load_bpc(BPC {
            summaries: vec![summary(ITRF93, 50, 0, 100), summary(50, ECLIPJ2000, 0, 100), summary(7, J2000, 0, 100)],
        })
        .unwrap();
    let (len, path) = almanac
        .orientation_path_to_root(Frame::from_ephem_orient(399, ITRF93), ep(10))
        .unwrap();
    assert_eq!(len, 3);
    assert_eq!(&path[..3], &[Some(50), Some(ECLIPJ2000), Some(J2000)]);
}
