//! Run options and configuration.

use vstd::prelude::*;
use crate::error::{DiffError, err_invalid_header_mode, err_invalid_config, msg_invalid_header_mode};

verus! {

/// How the two headers are reconciled: `Strict` demands equal ordered
/// headers; `Sorted` demands equal multisets and compares columns in
/// sorted order.
#[derive(Clone, Copy, Debug, PartialEq, Eq, Structural)]
pub enum HeaderMode {
    Strict,
    Sorted,
}

impl HeaderMode {
    /// Parses a header-mode name; only `strict` and `sorted` exist.
    pub fn parse(value: &str) -> (r: Result<HeaderMode, DiffError>)
        ensures
            value@ == "strict"@ ==> r == Ok::<HeaderMode, DiffError>(HeaderMode::Strict),
            value@ != "strict"@ && value@ == "sorted"@ ==> r == Ok::<HeaderMode, DiffError>(
                HeaderMode::Sorted,
            ),
            value@ != "strict"@ && value@ != "sorted"@ ==> (r matches Err(e) && e.code@
                == "invalid_header_mode"@ && e.message@ == msg_invalid_header_mode(value@)),
    {
        let v = value.to_owned();
        if v == "strict".to_owned() {
            Ok(HeaderMode::Strict)
        } else if v == "sorted".to_owned() {
            Ok(HeaderMode::Sorted)
        } else {
            Err(err_invalid_header_mode(value))
        }
    }
}

/// The comparison options: key columns (empty means positional mode),
/// header reconciliation mode, and whether unchanged rows are emitted.
#[derive(Clone, Debug)]
pub struct DiffOptions {
    pub key_columns: Vec<Vec<u8>>,
    pub header_mode: HeaderMode,
    pub emit_unchanged: bool,
}

impl DiffOptions {
    /// The defaults: positional mode, strict headers, unchanged rows
    /// suppressed.
    pub fn new_default() -> (r: DiffOptions)
        ensures
            r.key_columns@.len() == 0,
            r.header_mode == HeaderMode::Strict,
            !r.emit_unchanged,
    {
        DiffOptions { key_columns: Vec::new(), header_mode: HeaderMode::Strict, emit_unchanged: false }
    }
}

impl Default for DiffOptions {
    fn default() -> (r: Self)
        ensures
            r.key_columns@.len() == 0,
            r.header_mode == HeaderMode::Strict,
            !r.emit_unchanged,
    {
        DiffOptions::new_default()
    }
}

/// The run configuration: progress emission, the interval between
/// progress frames, and an optional partition count for the
/// partitioned path.
#[derive(Clone, Debug)]
pub struct EngineRunConfig {
    pub emit_progress: bool,
    pub progress_interval_events: usize,
    pub partition_count: Option<usize>,
}

impl EngineRunConfig {
    /// The defaults: no progress frames, an interval of 1000 events,
    /// no partitioning.
    pub fn new_default() -> (r: EngineRunConfig)
        ensures
            !r.emit_progress,
            r.progress_interval_events == 1000,
            r.partition_count is None,
    {
        EngineRunConfig { emit_progress: false, progress_interval_events: 1000, partition_count: None }
    }
}

impl Default for EngineRunConfig {
    fn default() -> (r: Self)
        ensures
            !r.emit_progress,
            r.progress_interval_events == 1000,
            r.partition_count is None,
    {
        EngineRunConfig::new_default()
    }
}

/// Whether every byte is an ASCII decimal digit.
pub open spec fn is_digits(b: Seq<u8>) -> bool {
    forall|i: int| 0 <= i < b.len() ==> 48 <= #[trigger] b[i] <= 57
}

/// The value of one ASCII digit; other bytes count as zero.
pub open spec fn digit_val(x: u8) -> nat {
    if 48 <= x <= 57 {
        (x - 48) as nat
    } else {
        0
    }
}

/// The number a digit sequence denotes.
pub open spec fn dec_val(b: Seq<u8>) -> nat
    decreases b.len(),
{
    if b.len() == 0 {
        0
    } else {
        dec_val(b.drop_last()) * 10 + digit_val(b.last())
    }
}

pub proof fn lemma_dec_val_take_mono(b: Seq<u8>, i: int)
    requires
        0 <= i <= b.len(),
    ensures
        dec_val(b.take(i)) <= dec_val(b),
    decreases b.len() - i,
{
    if i < b.len() {
        lemma_dec_val_take_mono(b, i + 1);
        assert(b.take(i + 1).drop_last() =~= b.take(i));
        assert(dec_val(b.take(i + 1)) == dec_val(b.take(i)) * 10 + digit_val(b.take(i + 1).last()));
        assert(dec_val(b.take(i)) <= dec_val(b.take(i)) * 10) by (nonlinear_arith);
    } else {
        assert(b.take(i) =~= b);
    }
}

/// Parses an override for the partition count, as the conformance
/// environment variable supplies it: empty means no override, and any
/// other value must be a positive decimal integer that fits a `usize`.
pub fn parse_partition_override(value: &Vec<u8>) -> (r: Result<Option<usize>, DiffError>)
    ensures
        value@.len() == 0 ==> r == Ok::<Option<usize>, DiffError>(None),
        value@.len() > 0 && is_digits(value@) && dec_val(value@) <= usize::MAX && dec_val(value@)
            > 0 ==> (r matches Ok(o) && o matches Some(v) && v as nat == dec_val(value@)),
        !(value@.len() == 0 || (is_digits(value@) && dec_val(value@) <= usize::MAX && dec_val(
            value@,
        ) > 0)) ==> (r matches Err(e) && e.code@ == "invalid_config"@),
    {
    if value.len() == 0 {
        return Ok(None);
    }
    let mut acc: usize = 0;
    let mut i: usize = 0;
    while i < value.len()
        invariant
            0 <= i <= value@.len(),
            forall|j: int| 0 <= j < i ==> 48 <= #[trigger] value@[j] <= 57,
            acc as nat == dec_val(value@.take(i as int)),
        decreases value@.len() - i,
    {
        let b = value[i];
        if b < 48 || b > 57 {
            return Err(err_invalid_config("partition count must be a positive integer"));
        }
        let d = (b - 48) as usize;
        if acc > (usize::MAX - d) / 10 {
            proof {
                vstd::arithmetic::div_mod::lemma_fundamental_div_mod(
                    (usize::MAX - d) as int,
                    10,
                );
                assert(acc as nat * 10 + d > usize::MAX) by (nonlinear_arith)
                    requires
                        acc as nat > ((usize::MAX - d) as int / 10),
                        (usize::MAX - d) as int == 10 * ((usize::MAX - d) as int / 10) + (
                        (usize::MAX - d) as int % 10),
                        0 <= (usize::MAX - d) as int % 10 < 10,
                        0 <= d <= 9,
                ;
                assert(value@.take(i as int + 1).drop_last() =~= value@.take(i as int));
                assert(dec_val(value@.take(i as int + 1)) > usize::MAX);
                lemma_dec_val_take_mono(value@, i as int + 1);
            }
            return Err(err_invalid_config("partition count is too large"));
        }
        proof {
            vstd::arithmetic::div_mod::lemma_fundamental_div_mod((usize::MAX - d) as int, 10);
            assert(acc as nat * 10 + d <= usize::MAX) by (nonlinear_arith)
                requires
                    acc as nat <= ((usize::MAX - d) as int / 10),
                    (usize::MAX - d) as int == 10 * ((usize::MAX - d) as int / 10) + ((usize::MAX
                        - d) as int % 10),
                    0 <= (usize::MAX - d) as int % 10 < 10,
                    0 <= d <= 9,
            ;
        }
        acc = acc * 10 + d;
        proof {
            assert(value@.take(i as int + 1).drop_last() =~= value@.take(i as int));
            assert(value@.take(i as int + 1).last() == value@[i as int]);
        }
        i = i + 1;
    }
    proof {
        assert(value@.take(value@.len() as int) =~= value@);
    }
    if acc == 0 {
        return Err(err_invalid_config("partition count must be greater than zero"));
    }
    Ok(Some(acc))
}

} // verus!
