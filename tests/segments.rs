use anise::aberration::{Aberration, PhysicsError};
use anise::almanac::Epoch;
use anise::hermite::{hermite_window, SegmentError};

fn tags(secs: &[i128]) -> Vec<Epoch> {
    secs.iter().map(|&s| Epoch { et_nanoseconds: s * 1_000_000_000 }).collect()
}

#[test]
fn validate_hermite_type13() {
    // 40 states at unequal steps, window of 8 states
    let mut secs = Vec::new();
    let mut t: i128 = 0;
    for k in 0..40 {
        secs.push(t);
        t += 60 + (k % 7) * 13;
    }
    let epochs = tags(&secs);
    let start = epochs[0].et_nanoseconds;
    let end = epochs[epochs.len() - 1].et_nanoseconds;
    let n_queries: i128 = 1000;
    let step = (end - start) / n_queries;
    for q in 0..=n_queries {
        let at = Epoch { et_nanoseconds: if q == n_queries { end } else { start + q * step } };
        let (first, i) = hermite_window(&epochs, 8, at).unwrap();
        assert!(epochs[i].et_nanoseconds <= at.et_nanoseconds);
        assert!(i == epochs.len() - 2 || at.et_nanoseconds < epochs[i + 1].et_nanoseconds);
        assert!(first <= i && i + 1 < first + 8 && first + 8 <= epochs.len());
    }
    // at the endpoints the window holds the stored end states
    assert_eq!(hermite_window(&epochs, 8, epochs[0]), Ok((0, 0)));
    assert_eq!(hermite_window(&epochs, 8, epochs[39]), Ok((32, 38)));
}

#[test]
fn hermite_exact_tag_starts_its_bracket() {
    let epochs = tags(&[0, 10, 20, 30, 40, 50]);
    assert_eq!(hermite_window(&epochs, 2, Epoch { et_nanoseconds: 20_000_000_000 }), Ok((2, 2)));
    assert_eq!(hermite_window(&epochs, 4, Epoch { et_nanoseconds: 25_000_000_000 }), Ok((1, 2)));
}

#[test]
fn hermite_out_of_coverage() {
    let epochs = tags(&[0, 10, 20, 30]);
    assert_eq!(
        hermite_window(&epochs, 2, Epoch { et_nanoseconds: 31_000_000_000 }),
        Err(SegmentError::OutOfCoverage)
    );
    assert_eq!(hermite_window(&epochs, 2, Epoch { et_nanoseconds: -1 }), Err(SegmentError::OutOfCoverage));
}

#[test]
fn hermite_malformed_window() {
    let epochs = tags(&[0, 10, 20, 30]);
    let t = Epoch { et_nanoseconds: 5 };
    assert_eq!(hermite_window(&epochs, 3, t), Err(SegmentError::MalformedSegment));
    assert_eq!(hermite_window(&epochs, 0, t), Err(SegmentError::MalformedSegment));
    assert_eq!(hermite_window(&epochs, 6, t), Err(SegmentError::MalformedSegment));
}

#[test]
fn aberration_names() {
    assert_eq!(
        Aberration::new("CN+S"),
        Ok(Some(Aberration { converged: true, stellar: true, transmit_mode: false }))
    );
    assert_eq!(
        Aberration::new("  XLT \n"),
        Ok(Some(Aberration { converged: false, stellar: false, transmit_mode: true }))
    );
    assert_eq!(Aberration::new("NONE"), Ok(None));
    assert_eq!(Aberration::new("LT+"), Err(PhysicsError::AberrationError));
    let chars: Vec<char> = "XCN+S".chars().collect();
    assert_eq!(
        Aberration::from_chars(&chars),
        Ok(Some(Aberration { converged: true, stellar: true, transmit_mode: true }))
    );
    let padded: Vec<char> = " LT".chars().collect();
    assert_eq!(Aberration::from_chars(&padded), Err(PhysicsError::AberrationError));
}

#[test]
fn aberration_description() {
    let cn_s = Aberration::new("CN+S").unwrap().unwrap();
    assert_eq!(cn_s.describe(), "converged light-time and stellar aberration");
    let xlt = Aberration::new("XLT").unwrap().unwrap();
    assert_eq!(xlt.describe(), "unconverged light-time aberration in transmit mode");
}
