use vstd::prelude::*;
use vstd::string::StringExecFns;

verus! {

/// The available aberration corrections.
#[derive(Copy, Clone, Debug, Default, PartialEq, Eq, Structural)]
pub struct Aberration {
    pub converged: bool,
    pub stellar: bool,
    pub transmit_mode: bool,
}

/// Errors of the physics helpers.
#[derive(Copy, Clone, Debug, PartialEq, Eq, Structural)]
pub enum PhysicsError {
    /// The name is none of the known aberration configurations.
    AberrationError,
}

/// What `str::trim` leaves of a string.
pub uninterp spec fn trim_of(s: Seq<char>) -> Seq<char>;

/// Relies on str::trim: leading and trailing white space is removed; the rest is a
/// function of the characters alone.
#[verifier::external_body]
fn trimmed_chars(s: &str) -> (r: Vec<char>)
    ensures
        r@ == trim_of(s@),
{
    s.trim().chars().collect()
}

/// The correction of given flags.
pub open spec fn spec_aberration(converged: bool, stellar: bool, transmit_mode: bool) -> Aberration {
    Aberration { converged, stellar, transmit_mode }
}

/// The configuration that a name stands for: `Some(None)` for "NONE", `None` for an
/// unknown name.
pub open spec fn aberration_named(s: Seq<char>) -> Option<Option<Aberration>> {
    if s == seq!['N', 'O', 'N', 'E'] {
        Some(None)
    } else if s == seq!['L', 'T'] {
        Some(Some(spec_aberration(false, false, false)))
    } else if s == seq!['L', 'T', '+', 'S'] {
        Some(Some(spec_aberration(false, true, false)))
    } else if s == seq!['C', 'N'] {
        Some(Some(spec_aberration(true, false, false)))
    } else if s == seq!['C', 'N', '+', 'S'] {
        Some(Some(spec_aberration(true, true, false)))
    } else if s == seq!['X', 'L', 'T'] {
        Some(Some(spec_aberration(false, false, true)))
    } else if s == seq!['X', 'L', 'T', '+', 'S'] {
        Some(Some(spec_aberration(false, true, true)))
    } else if s == seq!['X', 'C', 'N'] {
        Some(Some(spec_aberration(true, false, true)))
    } else if s == seq!['X', 'C', 'N', '+', 'S'] {
        Some(Some(spec_aberration(true, true, true)))
    } else {
        None
    }
}

/// The words that describe a correction.
pub open spec fn description(a: Aberration) -> Seq<char> {
    (if a.converged {
        "converged "@
    } else {
        "unconverged "@
    }) + "light-time "@ + (if a.stellar {
        "and stellar aberration"@
    } else {
        "aberration"@
    }) + (if a.transmit_mode {
        " in transmit mode"@
    } else {
        ""@
    })
}

/// Whether two character sequences are equal.
fn chars_eq(a: &[char], b: &[char]) -> (r: bool)
    ensures
        r == (a@ == b@),
{
    if a.len() != b.len() {
        return false;
    }
    let mut i: usize = 0;
    while i < a.len()
        invariant
            a@.len() == b@.len(),
            i <= a@.len(),
            forall|k: int| 0 <= k < i ==> a@[k] == b@[k],
        decreases a.len() - i,
    {
        if a[i] != b[i] {
            return false;
        }
        i += 1;
    }
    assert(a@ =~= b@);
    true
}

impl Aberration {
    /// The configuration named by `name`, taken as it stands.
    pub fn from_chars(name: &[char]) -> (r: Result<Option<Aberration>, PhysicsError>)
        ensures
            match r {
                Ok(a) => aberration_named(name@) == Some(a),
                Err(e) => aberration_named(name@) is None && e == PhysicsError::AberrationError,
            },
    {
        let none = ['N', 'O', 'N', 'E'];
        let lt = ['L', 'T'];
        let lt_s = ['L', 'T', '+', 'S'];
        let cn = ['C', 'N'];
        let cn_s = ['C', 'N', '+', 'S'];
        let xlt = ['X', 'L', 'T'];
        let xlt_s = ['X', 'L', 'T', '+', 'S'];
        let xcn = ['X', 'C', 'N'];
        let xcn_s = ['X', 'C', 'N', '+', 'S'];
        assert(none@ == seq!['N', 'O', 'N', 'E']);
        assert(lt@ == seq!['L', 'T']);
        assert(lt_s@ == seq!['L', 'T', '+', 'S']);
        assert(cn@ == seq!['C', 'N']);
        assert(cn_s@ == seq!['C', 'N', '+', 'S']);
        assert(xlt@ == seq!['X', 'L', 'T']);
        assert(xlt_s@ == seq!['X', 'L', 'T', '+', 'S']);
        assert(xcn@ == seq!['X', 'C', 'N']);
        assert(xcn_s@ == seq!['X', 'C', 'N', '+', 'S']);
        if chars_eq(name, &none) {
            Ok(None)
        } else if chars_eq(name, &lt) {
            Ok(Some(Aberration { converged: false, stellar: false, transmit_mode: false }))
        } else if chars_eq(name, &lt_s) {
            Ok(Some(Aberration { converged: false, stellar: true, transmit_mode: false }))
        } else if chars_eq(name, &cn) {
            Ok(Some(Aberration { converged: true, stellar: false, transmit_mode: false }))
        } else if chars_eq(name, &cn_s) {
            Ok(Some(Aberration { converged: true, stellar: true, transmit_mode: false }))
        } else if chars_eq(name, &xlt) {
            Ok(Some(Aberration { converged: false, stellar: false, transmit_mode: true }))
        } else if chars_eq(name, &xlt_s) {
            Ok(Some(Aberration { converged: false, stellar: true, transmit_mode: true }))
        } else if chars_eq(name, &xcn) {
            Ok(Some(Aberration { converged: true, stellar: false, transmit_mode: true }))
        } else if chars_eq(name, &xcn_s) {
            Ok(Some(Aberration { converged: true, stellar: true, transmit_mode: true }))
        } else {
            Err(PhysicsError::AberrationError)
        }
    }

    /// The configuration named by `flag`, once surrounding white space is removed.
    pub fn new(flag: &str) -> (r: Result<Option<Aberration>, PhysicsError>)
        ensures
            match r {
                Ok(a) => aberration_named(trim_of(flag@)) == Some(a),
                Err(e) => aberration_named(trim_of(flag@)) is None && e
                    == PhysicsError::AberrationError,
            },
    {
        let name = trimmed_chars(flag);
        Self::from_chars(name.as_slice())
    }

    /// Describes the correction in words.
    pub fn describe(&self) -> (r: String)
        ensures
            r@ == description(*self),
    {
        let mut r = if self.converged {
            String::from_str("converged ")
        } else {
            String::from_str("unconverged ")
        };
        r.append("light-time ");
        if self.stellar {
            r.append("and stellar aberration");
        } else {
            r.append("aberration");
        }
        if self.transmit_mode {
            r.append(" in transmit mode");
        } else {
            r.append("");
        }
        r
    }
}

} // verus!
