use anise::almanac::{Almanac, Epoch, Frame};
use anise::ephemerides::{EphemerisError, SPKSummaryRecord, SPK, SSB};

const EARTH_MOON_BARYCENTER: i32 = 3;
const EARTH: i32 = 399;
const MOON: i32 = 301;
const VENUS: i32 = 299;
const VENUS_BARYCENTER: i32 = 2;

fn ep(s: i128) -> Epoch {
    Epoch { et_nanoseconds: s * 1_000_000_000 }
}

fn seg(target_id: i32, center_id: i32, start: i128, end: i128) -> SPKSummaryRecord {
    SPKSummaryRecord {
        start_epoch: ep(start),
        end_epoch: ep(end),
        target_id,
        center_id,
        frame_id: 1,
        data_type_i: 2,
        start_idx: 641,
        end_idx: 4000,
    }
}

fn de_like() -> Almanac {
    let mut almanac = Almanac::new();
    almanac
        .load_spk(SPK {
            summaries: vec![
                seg(VENUS_BARYCENTER, SSB, 0, 1000),
                seg(EARTH_MOON_BARYCENTER, SSB, 0, 1000),
                seg(VENUS, VENUS_BARYCENTER, 0, 1000),
                seg(MOON, EARTH_MOON_BARYCENTER, 0, 1000),
                seg(EARTH, EARTH_MOON_BARYCENTER, 0, 1000),
            ],
        })
        .unwrap();
    almanac
}

fn body(id: i32) -> Frame {
    Frame::from_ephem_orient(id, 1)
}

#[test]
fn ephemeris_root_is_ssb() {
    assert_eq!(de_like().try_find_ephemeris_root(), Ok(SSB));
    assert_eq!(Almanac::new().try_find_ephemeris_root(), Err(EphemerisError::NoEphemerisLoaded));
}

#[test]
fn earth_path_to_ssb() {
    let almanac = de_like();
    let (len, path) = almanac.ephemeris_path_to_root(body(EARTH), ep(10)).unwrap();
    assert_eq!(len, 2);
    assert_eq!(&path[..3], &[Some(EARTH_MOON_BARYCENTER), Some(SSB), None]);
    let (len, _) = almanac.ephemeris_path_to_root(body(SSB), ep(10)).unwrap();
    assert_eq!(len, 0);
}

#[test]
fn earth_to_moon_meets_at_barycenter() {
    let almanac = de_like();
    let (len, _, node) = almanac.common_ephemeris_path(body(EARTH), body(MOON), ep(10)).unwrap();
    assert_eq!((len, node), (0, EARTH_MOON_BARYCENTER));
    let (len, path, node) = almanac.common_ephemeris_path(body(EARTH), body(VENUS), ep(10)).unwrap();
    assert_eq!((len, node), (1, SSB));
    assert_eq!(path[0], Some(EARTH_MOON_BARYCENTER));
    let (len, path, node) = almanac.common_ephemeris_path(body(EARTH), body(SSB), ep(10)).unwrap();
    assert_eq!((len, node), (2, SSB));
    assert_eq!(&path[..2], &[Some(EARTH_MOON_BARYCENTER), Some(SSB)]);
}

#[test]
fn ephemeris_out_of_coverage() {
    let almanac = de_like();
    assert_eq!(
        almanac.ephemeris_path_to_root(body(EARTH), ep(1001)),
        Err(EphemerisError::OutOfCoverage { id: EARTH, epoch: ep(1001) })
    );
    assert!(almanac.spk_summary_at_epoch(EARTH, ep(1000)).is_ok());
}

#[test]
fn later_spk_shadows_earlier() {
    let mut almanac = de_like();
    almanac.load_spk(SPK { summaries: vec![seg(EARTH, SSB, 500, 600)] }).unwrap();
    let (s, f, i) = almanac.spk_summary_at_epoch(EARTH, ep(550)).unwrap();
    assert_eq!((s.center_id, f, i), (SSB, 1, 0));
    let (s, f, i) = almanac.spk_summary_at_epoch(EARTH, ep(700)).unwrap();
    assert_eq!((s.center_id, f, i), (EARTH_MOON_BARYCENTER, 0, 4));
    assert!(almanac.unload_last_spk().is_some());
    let (s, f, i) = almanac.spk_summary_at_epoch(EARTH, ep(550)).unwrap();
    assert_eq!((s.center_id, f, i), (EARTH_MOON_BARYCENTER, 0, 4));
}

fn spk_chain(hops: i32) -> Almanac {
    // body 1000 + k orbits 1000 + k + 1, the last one orbits the barycenter
    let mut summaries = Vec::new();
    for k in 0..hops - 1 {
        summaries.push(seg(1000 + k, 1000 + k + 1, 0, 100));
    }
    summaries.push(seg(1000 + hops - 1, SSB, 0, 100));
    let mut almanac = Almanac::new();
    almanac.load_spk(SPK { summaries }).unwrap();
    almanac
}

#[test]
fn nine_hops_exceed_depth_and_eight_fit() {
    assert_eq!(
        spk_chain(9).ephemeris_path_to_root(body(1000), ep(50)),
        Err(EphemerisError::MaxRecursionDepth)
    );
    let (len, path) = spk_chain(8).ephemeris_path_to_root(body(1000), ep(50)).unwrap();
    assert_eq!(len, 8);
    assert_eq!(path[0], Some(1001));
    assert_eq!(path[7], Some(SSB));
}

#[test]
fn same_origin_other_orientation_has_empty_path() {
    let almanac = de_like();
    let a = Frame::from_ephem_orient(SSB, 1);
    let b = Frame::from_ephem_orient(SSB, 17);
    let (len, _, node) = almanac.common_ephemeris_path(a, b, ep(1)).unwrap();
    assert_eq!((len, node), (0, SSB));
    let e1 = Frame::from_ephem_orient(EARTH, 1);
    let e2 = Frame::from_ephem_orient(EARTH, 3000);
    let (len, _, node) = almanac.common_ephemeris_path(e1, e2, ep(1)).unwrap();
    assert_eq!((len, node), (0, EARTH));
}

#[test]
fn ssb_is_root_whenever_it_appears() {
    let mut almanac = Almanac::new();
    let mut empty = seg(EARTH, 5, 0, 10);
    empty.end_idx = empty.start_idx;
    almanac.load_spk(SPK { summaries: vec![empty] }).unwrap();
    assert_eq!(almanac.try_find_ephemeris_root(), Err(EphemerisError::NoEphemerisRoot));
    almanac.load_spk(SPK { summaries: vec![seg(EARTH, -3, 0, 10), seg(-3, SSB, 0, 10)] }).unwrap();
    assert_eq!(almanac.try_find_ephemeris_root(), Ok(SSB));
}

#[test]
fn ancestor_origin_in_both_directions() {
    let almanac = de_like();
    let earth = body(EARTH);
    let emb = body(EARTH_MOON_BARYCENTER);
    let (len, path, node) = almanac.common_ephemeris_path(earth, emb, ep(10)).unwrap();
    assert_eq!((len, node), (1, EARTH_MOON_BARYCENTER));
    assert_eq!(path[0], Some(EARTH_MOON_BARYCENTER));
    let (len, path, node) = almanac.common_ephemeris_path(emb, earth, ep(10)).unwrap();
    assert_eq!((len, node), (1, EARTH_MOON_BARYCENTER));
    assert_eq!(path[0], Some(EARTH_MOON_BARYCENTER));
}
