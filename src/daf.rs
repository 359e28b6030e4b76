use vstd::prelude::*;

verus! {

/// Length in bytes of every record of a double-precision array file.
pub const RCRD_LEN: usize = 1024;

/// Byte order of the numbers of a file.
#[derive(Copy, Clone, Debug, PartialEq, Eq, Structural)]
pub enum Endian {
    Little,
    Big,
}

/// Errors of the file reader.
#[derive(Copy, Clone, Debug, PartialEq, Eq, Structural)]
pub enum DAFError {
    /// The file does not hold what its layout promises.
    MalformedFile,
    /// A summary does not describe a segment: too few fields, reversed coverage, or
    /// indexes outside the file's double array.
    MalformedSummary,
}

/// `256^n`.
pub open spec fn pow256(n: nat) -> nat
    decreases n,
{
    if n == 0 {
        1
    } else {
        256 * pow256((n - 1) as nat)
    }
}

/// The unsigned value of the `n` bytes at `off`, least significant first.
pub open spec fn le_value(b: Seq<u8>, off: int, n: nat) -> nat
    decreases n,
{
    if n == 0 {
        0
    } else {
        b[off] as nat + 256 * le_value(b, off + 1, (n - 1) as nat)
    }
}

/// The unsigned value of the `n` bytes at `off`, most significant first.
pub open spec fn be_value(b: Seq<u8>, off: int, n: nat) -> nat
    decreases n,
{
    if n == 0 {
        0
    } else {
        be_value(b, off, (n - 1) as nat) * 256 + b[off + n - 1] as nat
    }
}

/// The unsigned value of the `n` bytes at `off` in the given order.
pub open spec fn word_value(b: Seq<u8>, off: int, n: nat, e: Endian) -> nat {
    match e {
        Endian::Little => le_value(b, off, n),
        Endian::Big => be_value(b, off, n),
    }
}

/// Reads the unsigned value of `n` bytes at `off`; `None` when they are not all in `b`.
pub fn read_word(b: &[u8], off: usize, n: usize, e: Endian) -> (r: Option<u64>)
    requires
        n <= 8,
    ensures
        match r {
            Some(v) => off + n <= b@.len() && v == word_value(b@, off as int, n as nat, e),
            None => off + n > b@.len(),
        },
{
    if off > b.len() || n > b.len() - off {
        return None;
    }
    let mut acc: u64 = 0;
    match e {
        Endian::Little => {
            let mut k: usize = n;
            while k > 0
                invariant
                    k <= n <= 8,
                    off + n <= b.len(),
                    acc == le_value(b@, off + k, (n - k) as nat),
                    acc < pow256((n - k) as nat),
                decreases k,
            {
                let byte = b[off + k - 1];
                proof {
                    lemma_p256_bound((n - k) as nat);
                    assert(acc * 256 + byte < pow256((n - k + 1) as nat)) by (nonlinear_arith)
                        requires
                            acc < pow256((n - k) as nat),
                            byte < 256,
                            pow256((n - k + 1) as nat) == 256 * pow256((n - k) as nat),
                    ;
                    assert(le_value(b@, off + k - 1, (n - k + 1) as nat) == byte + 256 * acc);
                }
                acc = acc * 256 + byte as u64;
                k -= 1;
            }
        },
        Endian::Big => {
            let mut k: usize = 0;
            while k < n
                invariant
                    k <= n <= 8,
                    off + n <= b.len(),
                    acc == be_value(b@, off as int, k as nat),
                    acc < pow256(k as nat),
                decreases n - k,
            {
                let byte = b[off + k];
                proof {
                    lemma_p256_bound(k as nat);
                    assert(acc * 256 + byte < pow256((k + 1) as nat)) by (nonlinear_arith)
                        requires
                            acc < pow256(k as nat),
                            byte < 256,
                            pow256((k + 1) as nat) == 256 * pow256(k as nat),
                    ;
                }
                acc = acc * 256 + byte as u64;
                k += 1;
            }
        },
    }
    Some(acc)
}

/// `256^n` fits in 64 bits for `n < 8`, and its next power is 256 times it.
proof fn lemma_p256_bound(n: nat)
    requires
        n < 8,
    ensures
        pow256(n) <= 0x100000000000000,
        pow256(n + 1) == 256 * pow256(n),
        pow256(n + 1) <= 0x10000000000000000,
    decreases n,
{
    if n > 0 {
        lemma_p256_bound((n - 1) as nat);
    }
    reveal_with_fuel(pow256, 9);
}

/// Which kind of data a file holds.
#[derive(Copy, Clone, Debug, PartialEq, Eq, Structural)]
pub enum DafKind {
    /// Ephemerides, identified by `DAF/SPK `.
    Spk,
    /// Orientations, identified by `DAF/PCK `.
    Pck,
}

/// The file record: the layout of every summary and where the summary records start.
#[derive(Copy, Clone, Debug, PartialEq, Eq, Structural)]
pub struct FileRecord {
    pub kind: DafKind,
    pub endian: Endian,
    /// Doubles per summary.
    pub nd: u32,
    /// Integers per summary.
    pub ni: u32,
    /// Index (from 1) of the first summary record.
    pub fwrd_idx: u32,
    /// Index (from 1) of the last summary record.
    pub bwrd_idx: u32,
    /// First free address of the file.
    pub free_addr: u32,
}

/// The bytes of `b` at `off` are `lit`.
pub open spec fn bytes_are(b: Seq<u8>, off: int, lit: Seq<u8>) -> bool {
    0 <= off && off + lit.len() <= b.len() && b.subrange(off, off + lit.len()) == lit
}

/// `DAF/SPK `
pub open spec fn spk_tag() -> Seq<u8> {
    seq![68u8, 65u8, 70u8, 47u8, 83u8, 80u8, 75u8, 32u8]
}

/// `DAF/PCK `
pub open spec fn pck_tag() -> Seq<u8> {
    seq![68u8, 65u8, 70u8, 47u8, 80u8, 67u8, 75u8, 32u8]
}

/// `LTL-IEEE`
pub open spec fn ltl_tag() -> Seq<u8> {
    seq![76u8, 84u8, 76u8, 45u8, 73u8, 69u8, 69u8, 69u8]
}

/// `BIG-IEEE`
pub open spec fn big_tag() -> Seq<u8> {
    seq![66u8, 73u8, 71u8, 45u8, 73u8, 69u8, 69u8, 69u8]
}

/// Size of one summary, in doubles.
pub open spec fn summary_doubles(nd: int, ni: int) -> int {
    nd + (ni + 1) / 2
}

/// The file record at the start of `b`, if it is well formed: a known identification
/// word and number format, at least one double and a summary that fits in a record, and
/// a first summary record.
pub open spec fn file_record_of(b: Seq<u8>) -> Option<FileRecord> {
    if b.len() < RCRD_LEN {
        None
    } else {
        let kind = if bytes_are(b, 0, spk_tag()) {
            Some(DafKind::Spk)
        } else if bytes_are(b, 0, pck_tag()) {
            Some(DafKind::Pck)
        } else {
            None
        };
        let endian = if bytes_are(b, 88, ltl_tag()) {
            Some(Endian::Little)
        } else if bytes_are(b, 88, big_tag()) {
            Some(Endian::Big)
        } else {
            None
        };
        match (kind, endian) {
            (Some(k), Some(e)) => {
                let nd = word_value(b, 8, 4, e);
                let ni = word_value(b, 12, 4, e);
                let fwrd = word_value(b, 76, 4, e);
                if 1 <= nd <= 124 && ni <= 250 && 24 + 8 * summary_doubles(nd as int, ni as int)
                    <= RCRD_LEN && fwrd >= 1 {
                    Some(
                        FileRecord {
                            kind: k,
                            endian: e,
                            nd: nd as u32,
                            ni: ni as u32,
                            fwrd_idx: fwrd as u32,
                            bwrd_idx: word_value(b, 80, 4, e) as u32,
                            free_addr: word_value(b, 84, 4, e) as u32,
                        },
                    )
                } else {
                    None
                }
            },
            _ => None,
        }
    }
}

/// Whether the bytes of `b` at `off` are `lit`.
fn bytes_match(b: &[u8], off: usize, lit: &[u8]) -> (r: bool)
    ensures
        r == bytes_are(b@, off as int, lit@),
{
    if off > b.len() || lit.len() > b.len() - off {
        return false;
    }
    let mut i: usize = 0;
    while i < lit.len()
        invariant
            off + lit.len() <= b.len(),
            i <= lit@.len(),
            forall|k: int| 0 <= k < i ==> b@[off + k] == lit@[k],
        decreases lit.len() - i,
    {
        if b[off + i] != lit[i] {
            assert(b@.subrange(off as int, off + lit@.len())[i as int] != lit@[i as int]);
            return false;
        }
        i += 1;
    }
    assert(b@.subrange(off as int, off + lit@.len()) =~= lit@);
    true
}

/// Reads a 4-byte unsigned word that is known to be in `b`.
fn word4(b: &[u8], off: usize, e: Endian) -> (r: u64)
    requires
        off + 4 <= b@.len(),
    ensures
        r == word_value(b@, off as int, 4, e),
        r < 0x100000000,
{
    let v = read_word(b, off, 4, e);
    proof {
        lemma_word_bound(b@, off as int, 4, e);
        reveal_with_fuel(pow256, 5);
    }
    v.unwrap()
}

/// A word of `n` bytes is below `256^n`.
pub proof fn lemma_word_bound(b: Seq<u8>, off: int, n: nat, e: Endian)
    ensures
        word_value(b, off, n, e) < pow256(n),
    decreases n,
{
    if n > 0 {
        match e {
            Endian::Little => {
                lemma_word_bound(b, off + 1, (n - 1) as nat, e);
                let rest = le_value(b, off + 1, (n - 1) as nat);
                let byte = b[off] as nat;
                assert(byte + 256 * rest < 256 * pow256((n - 1) as nat)) by (nonlinear_arith)
                    requires
                        rest < pow256((n - 1) as nat),
                        byte < 256,
                ;
            },
            Endian::Big => {
                lemma_word_bound(b, off, (n - 1) as nat, e);
                let rest = be_value(b, off, (n - 1) as nat);
                let byte = b[off + n - 1] as nat;
                assert(rest * 256 + byte < 256 * pow256((n - 1) as nat)) by (nonlinear_arith)
                    requires
                        rest < pow256((n - 1) as nat),
                        byte < 256,
                ;
            },
        }
    }
}

/// Parses the file record at the start of `b`.
pub fn parse_file_record(b: &[u8]) -> (r: Result<FileRecord, DAFError>)
    ensures
        match r {
            Ok(fr) => file_record_of(b@) == Some(fr),
            Err(e) => file_record_of(b@) is None && e == DAFError::MalformedFile,
        },
{
    if b.len() < RCRD_LEN {
        return Err(DAFError::MalformedFile);
    }
    let spk = [68u8, 65u8, 70u8, 47u8, 83u8, 80u8, 75u8, 32u8];
    let pck = [68u8, 65u8, 70u8, 47u8, 80u8, 67u8, 75u8, 32u8];
    let ltl = [76u8, 84u8, 76u8, 45u8, 73u8, 69u8, 69u8, 69u8];
    let big = [66u8, 73u8, 71u8, 45u8, 73u8, 69u8, 69u8, 69u8];
    assert(spk@ == spk_tag());
    assert(pck@ == pck_tag());
    assert(ltl@ == ltl_tag());
    assert(big@ == big_tag());
    let kind = if bytes_match(b, 0, &spk) {
        DafKind::Spk
    } else if bytes_match(b, 0, &pck) {
        DafKind::Pck
    } else {
        return Err(DAFError::MalformedFile);
    };
    let endian = if bytes_match(b, 88, &ltl) {
        Endian::Little
    } else if bytes_match(b, 88, &big) {
        Endian::Big
    } else {
        return Err(DAFError::MalformedFile);
    };
    let nd = word4(b, 8, endian);
    let ni = word4(b, 12, endian);
    let fwrd = word4(b, 76, endian);
    let bwrd = word4(b, 80, endian);
    let free = word4(b, 84, endian);
    if nd < 1 || nd > 124 || ni > 250 || 24 + 8 * (nd + (ni + 1) / 2) > RCRD_LEN as u64 || fwrd < 1 {
        return Err(DAFError::MalformedFile);
    }
    Ok(
        FileRecord {
            kind,
            endian,
            nd: nd as u32,
            ni: ni as u32,
            fwrd_idx: fwrd as u32,
            bwrd_idx: bwrd as u32,
            free_addr: free as u32,
        },
    )
}

/// The whole number held by the IEEE-754 double of bits `x`, if it holds one, not
/// negative and below `2^53` (the control words of summary records are such numbers).
pub open spec fn whole_of_bits(x: u64) -> Option<u64> {
    if x == 0 {
        Some(0)
    } else {
        let exp = (x >> 52u64) & 0x7ffu64;
        let mant = (x & 0xfffffffffffffu64) | 0x10000000000000u64;
        if (x >> 63u64) != 0 || exp < 1023 || exp > 1075 {
            None
        } else {
            let shift = (1075 - exp) as u64;
            if (mant >> shift) << shift == mant {
                Some(mant >> shift)
            } else {
                None
            }
        }
    }
}

/// Decodes the whole number held by the double of bits `x`.
pub fn whole_from_bits(x: u64) -> (r: Option<u64>)
    ensures
        r == whole_of_bits(x),
{
    if x == 0 {
        return Some(0);
    }
    let exp = (x >> 52u64) & 0x7ffu64;
    let mant = (x & 0xfffffffffffffu64) | 0x10000000000000u64;
    if (x >> 63u64) != 0 || exp < 1023 || exp > 1075 {
        None
    } else {
        let shift = (1075 - exp) as u64;
        if (mant >> shift) << shift == mant {
            Some(mant >> shift)
        } else {
            None
        }
    }
}

/// One summary as stored: its doubles as raw bits, then its integers.
#[derive(Debug, PartialEq, Eq)]
pub struct RawSummary {
    pub doubles: Vec<u64>,
    pub ints: Vec<i32>,
}

/// The contents of a summary.
pub open spec fn raw_view(r: RawSummary) -> (Seq<u64>, Seq<i32>) {
    (r.doubles@, r.ints@)
}

/// The summary stored at byte `base`.
pub open spec fn raw_at(b: Seq<u8>, fr: FileRecord, base: int) -> (Seq<u64>, Seq<i32>) {
    (
        Seq::new(fr.nd as nat, |i: int| word_value(b, base + 8 * i, 8, fr.endian) as u64),
        Seq::new(
            fr.ni as nat,
            |i: int| word_value(b, base + 8 * fr.nd + 4 * i, 4, fr.endian) as u32 as i32,
        ),
    )
}

/// The file record's layout is one that [file_record_of] accepts.
pub open spec fn layout_ok(fr: FileRecord) -> bool {
    1 <= fr.nd <= 124 && fr.ni <= 250 && 24 + 8 * summary_doubles(fr.nd as int, fr.ni as int)
        <= RCRD_LEN
}

/// Summary record `idx` (from 1): the index of the next summary record and the summaries
/// that it holds, if it lies in `b` and its control words are consistent.
pub open spec fn summary_record_of(b: Seq<u8>, fr: FileRecord, idx: nat) -> Option<
    (nat, Seq<(Seq<u64>, Seq<i32>)>),
> {
    let off = (idx - 1) * RCRD_LEN;
    let ss = summary_doubles(fr.nd as int, fr.ni as int);
    if idx < 1 || idx * RCRD_LEN > b.len() {
        None
    } else {
        match (
            whole_of_bits(word_value(b, off, 8, fr.endian) as u64),
            whole_of_bits(word_value(b, off + 16, 8, fr.endian) as u64),
        ) {
            (Some(next), Some(nsum)) => if 24 + 8 * nsum * ss <= RCRD_LEN {
                Some(
                    (
                        next as nat,
                        Seq::new(nsum as nat, |j: int| raw_at(b, fr, off + 24 + 8 * j * ss)),
                    ),
                )
            } else {
                None
            },
            _ => None,
        }
    }
}

/// The summaries of the records from `idx` on, following the links, in at most `fuel`
/// records; `None` when a record is malformed or the links do not end.
pub open spec fn summaries_from(b: Seq<u8>, fr: FileRecord, idx: nat, fuel: nat) -> Option<
    Seq<(Seq<u64>, Seq<i32>)>,
>
    decreases fuel,
{
    if idx == 0 {
        Some(seq![])
    } else if fuel == 0 {
        None
    } else {
        match summary_record_of(b, fr, idx) {
            None => None,
            Some((next, here)) => match summaries_from(b, fr, next, (fuel - 1) as nat) {
                None => None,
                Some(rest) => Some(here + rest),
            },
        }
    }
}

/// Every summary of the file, in order: the walk from the first summary record, through at
/// most as many records as the file holds.
pub open spec fn all_summaries(b: Seq<u8>, fr: FileRecord) -> Option<Seq<(Seq<u64>, Seq<i32>)>> {
    summaries_from(b, fr, fr.fwrd_idx as nat, b.len() / (RCRD_LEN as nat))
}

/// Reads the summary stored at byte `base`.
fn read_summary(b: &[u8], fr: &FileRecord, base: usize) -> (r: RawSummary)
    requires
        layout_ok(*fr),
        base + 8 * fr.nd + 4 * fr.ni <= b@.len(),
    ensures
        raw_view(r) == raw_at(b@, *fr, base as int),
{
    let mut doubles: Vec<u64> = Vec::new();
    let mut i: usize = 0;
    while i < fr.nd as usize
        invariant
            layout_ok(*fr),
            base + 8 * fr.nd + 4 * fr.ni <= b.len(),
            i <= fr.nd,
            doubles@.len() == i,
            forall|k: int| 0 <= k < i ==> #[trigger] doubles@[k] == word_value(b@, base + 8 * k, 8, fr.endian) as u64,
        decreases fr.nd - i,
    {
        let w = read_word(b, base + 8 * i, 8, fr.endian);
        doubles.push(w.unwrap());
        i += 1;
    }
    let mut ints: Vec<i32> = Vec::new();
    let mut j: usize = 0;
    while j < fr.ni as usize
        invariant
            layout_ok(*fr),
            base + 8 * fr.nd + 4 * fr.ni <= b.len(),
            j <= fr.ni,
            ints@.len() == j,
            forall|k: int| 0 <= k < j ==> #[trigger] ints@[k] == word_value(b@, base + 8 * fr.nd + 4 * k, 4, fr.endian) as u32 as i32,
        decreases fr.ni - j,
    {
        let w = read_word(b, base + 8 * (fr.nd as usize) + 4 * j, 4, fr.endian);
        proof {
            lemma_word_bound(b@, base + 8 * fr.nd + 4 * j, 4, fr.endian);
            reveal_with_fuel(pow256, 5);
        }
        ints.push(w.unwrap() as u32 as i32);
        j += 1;
    }
    let r = RawSummary { doubles, ints };
    assert(r.doubles@ =~= raw_at(b@, *fr, base as int).0);
    assert(r.ints@ =~= raw_at(b@, *fr, base as int).1);
    r
}

/// `o` after `p`, when there is one.
pub open spec fn prepend_opt(p: Seq<(Seq<u64>, Seq<i32>)>, o: Option<Seq<(Seq<u64>, Seq<i32>)>>) -> Option<
    Seq<(Seq<u64>, Seq<i32>)>,
> {
    match o {
        Some(r) => Some(p + r),
        None => None,
    }
}

/// Reads an 8-byte word that is known to be in `b`.
fn word8(b: &[u8], off: usize, e: Endian) -> (r: u64)
    requires
        off + 8 <= b@.len(),
    ensures
        r == word_value(b@, off as int, 8, e) as u64,
        r == word_value(b@, off as int, 8, e),
{
    let v = read_word(b, off, 8, e);
    proof {
        lemma_word_bound(b@, off as int, 8, e);
        reveal_with_fuel(pow256, 9);
    }
    v.unwrap()
}

/// Reads summary record `idx`, appending its summaries to `out`; returns the index of the
/// next summary record.
#[verifier::loop_isolation(false)]
fn read_record(b: &[u8], fr: &FileRecord, idx: u64, out: &mut Vec<RawSummary>) -> (r: Option<u64>)
    requires
        layout_ok(*fr),
    ensures
        match (r, summary_record_of(b@, *fr, idx as nat)) {
            (Some(next), Some((n, here))) => next == n && final(out)@.map_values(|x: RawSummary| raw_view(x))
                == old(out)@.map_values(|x: RawSummary| raw_view(x)) + here,
            (None, None) => true,
            _ => false,
        },
{
    let n_records = b.len() / RCRD_LEN;
    if idx < 1 || idx > n_records as u64 {
        return None;
    }
    let i = idx as usize;
    assert(i * 1024 <= b@.len()) by (nonlinear_arith)
        requires
            i <= n_records,
            n_records == b@.len() / 1024,
    ;
    let off = (i - 1) * RCRD_LEN;
    let next = match whole_from_bits(word8(b, off, fr.endian)) {
        Some(n) => n,
        None => return None,
    };
    let nsum = match whole_from_bits(word8(b, off + 16, fr.endian)) {
        Some(n) => n,
        None => return None,
    };
    let ss: usize = fr.nd as usize + (fr.ni as usize + 1) / 2;
    if nsum > 1024 {
        assert(24 + 8 * nsum * ss > RCRD_LEN) by (nonlinear_arith)
            requires
                ss >= 1,
                nsum > 1024,
        ;
        return None;
    }
    assert(8 * nsum * ss <= 8 * 1024 * 125) by (nonlinear_arith)
        requires
            ss <= 125,
            nsum <= 1024,
    ;
    if 24 + 8 * (nsum as usize) * ss > RCRD_LEN {
        return None;
    }
    let ghost here = Seq::new(
        nsum as nat,
        |j: int| raw_at(b@, *fr, off + 24 + 8 * j * ss),
    );
    let ghost start = old(out)@.map_values(|x: RawSummary| raw_view(x));
    let mut j: usize = 0;
    while j < nsum as usize
        invariant
            j <= nsum,
            24 + 8 * nsum * ss <= RCRD_LEN,
            off + RCRD_LEN <= b.len(),
            ss == summary_doubles(fr.nd as int, fr.ni as int),
            out@.map_values(|x: RawSummary| raw_view(x)) =~= start + here.take(j as int),
        decreases nsum - j,
    {
        assert(8 * j * ss + 8 * ss <= 8 * nsum * ss) by (nonlinear_arith)
            requires
                j < nsum,
        ;
        let base = off + 24 + 8 * j * ss;
        let s = read_summary(b, fr, base);
        let ghost prev_out = out@;
        out.push(s);
        assert(raw_view(s) == here[j as int]);
        assert(out@.map_values(|x: RawSummary| raw_view(x)) =~= prev_out.map_values(
            |x: RawSummary| raw_view(x),
        ).push(raw_view(s)));
        assert(here.take(j as int + 1) =~= here.take(j as int).push(raw_view(s)));
        j += 1;
    }
    assert(here.take(nsum as int) =~= here);
    Some(next)
}

/// Returns every summary of the file in order, walking the summary records from the first
/// through their links.
#[verifier::loop_isolation(false)]
pub fn summaries(b: &[u8], fr: &FileRecord) -> (r: Result<Vec<RawSummary>, DAFError>)
    ensures
        match r {
            Ok(v) => layout_ok(*fr) && all_summaries(b@, *fr) == Some(
                v@.map_values(|x: RawSummary| raw_view(x)),
            ),
            Err(e) => (!layout_ok(*fr) || all_summaries(b@, *fr) is None) && e
                == DAFError::MalformedFile,
        },
{
    if fr.nd < 1 || fr.nd > 124 || fr.ni > 250 || 24 + 8 * (fr.nd as u64 + (fr.ni as u64 + 1) / 2)
        > RCRD_LEN as u64 {
        return Err(DAFError::MalformedFile);
    }
    let mut out: Vec<RawSummary> = Vec::new();
    let mut idx: u64 = fr.fwrd_idx as u64;
    let mut fuel: usize = b.len() / RCRD_LEN;
    assert(out@.map_values(|x: RawSummary| raw_view(x)) =~= Seq::<(Seq<u64>, Seq<i32>)>::empty());
    assert(prepend_opt(seq![], summaries_from(b@, *fr, idx as nat, fuel as nat)) == all_summaries(
        b@,
        *fr,
    )) by {
        match summaries_from(b@, *fr, idx as nat, fuel as nat) {
            Some(x) => {
                assert(Seq::<(Seq<u64>, Seq<i32>)>::empty() + x =~= x);
            },
            None => {},
        }
    }
    while idx != 0
        invariant
            layout_ok(*fr),
            all_summaries(b@, *fr) == prepend_opt(
                out@.map_values(|x: RawSummary| raw_view(x)),
                summaries_from(b@, *fr, idx as nat, fuel as nat),
            ),
        decreases fuel,
    {
        if fuel == 0 {
            return Err(DAFError::MalformedFile);
        }
        let ghost before = out@.map_values(|x: RawSummary| raw_view(x));
        let ghost cur = idx;
        match read_record(b, fr, idx, &mut out) {
            Some(next) => {
                proof {
                    let here = summary_record_of(b@, *fr, cur as nat)->Some_0.1;
                    match summaries_from(b@, *fr, next as nat, (fuel - 1) as nat) {
                        Some(rest) => {
                            assert(before + (here + rest) =~= (before + here) + rest);
                        },
                        None => {},
                    }
                }
                idx = next;
                fuel -= 1;
            },
            None => {
                return Err(DAFError::MalformedFile);
            },
        }
    }
    assert(out@.map_values(|x: RawSummary| raw_view(x)) + seq![] =~= out@.map_values(
        |x: RawSummary| raw_view(x),
    ));
    Ok(out)
}

} // verus!
