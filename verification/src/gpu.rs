//! Evaluators: synthesis of pattern bytes and batches of logical pages on
//! the CPU, with a word-at-a-time variant, and behind a compute-adapter
//! front that falls back to the CPU

use vstd::prelude::*;
use crate::error::CoreError;
use crate::synthetic::{random_bytes, random_run};
use crate::text::{chars_eq, str_chars};
use crate::resolver::push_str;

verus! {

broadcast use vstd::std_specs::vec::group_vec_axioms;

/// Errors arising during GPU/CPU hardware evaluation and execution
#[derive(Debug)]
pub enum GpuError {
    /// No compatible compute adapter or GPU device found
    AdapterNotFound,
    /// The compute device is unavailable (why)
    DeviceUnavailable(String),
    /// The generation pattern is not one of `zeros`, `counter`, `repeat`, `random` (the pattern)
    UnsupportedPattern(String),
    /// The computation failed (why)
    ExecutionFailed(String),
    /// An error of the core library
    Core(CoreError),
}

/// Backend classification of an evaluator
#[derive(Debug, Clone, PartialEq, Eq)]
pub enum EvaluatorBackend {
    Cpu,
    Simd,
    Gpu { adapter_name: String, backend: String },
    Mock,
}

/// Request descriptor for batch page synthesis / evaluation
#[derive(Debug, Clone, PartialEq, Eq)]
pub struct PageEvalRequest {
    pub page_index: u64,
    pub logical_len: usize,
    pub pattern: String,
    pub seed: u64,
}

/// Information about a detected compute adapter or GPU device
#[derive(Debug, Clone, PartialEq, Eq)]
pub struct GpuDeviceInfo {
    pub adapter_name: String,
    pub backend: String,
    pub device_type: String,
    pub is_dedicated: bool,
    pub max_buffer_size: u64,
}

/// The bytes `MFAS`, the word of the `repeat` pattern
pub open spec fn mfas_word() -> Seq<u8> {
    seq![0x4Du8, 0x46u8, 0x41u8, 0x53u8]
}

/// The XorShift64 state the `random` pattern starts from: the seed, or a
/// fixed constant for seed zero
pub open spec fn random_start(seed: u64) -> u64 {
    if seed == 0 {
        0xDEADBEEFCAFEBABEu64
    } else {
        seed
    }
}

/// The name of the pattern of zero bytes
pub open spec fn zeros_name() -> Seq<char> {
    seq!['z', 'e', 'r', 'o', 's']
}

/// The name of the pattern of byte positions modulo 256
pub open spec fn counter_name() -> Seq<char> {
    seq!['c', 'o', 'u', 'n', 't', 'e', 'r']
}

/// The name of the pattern that repeats `MFAS`
pub open spec fn repeat_name() -> Seq<char> {
    seq!['r', 'e', 'p', 'e', 'a', 't']
}

/// The name of the pseudo-random pattern
pub open spec fn random_name() -> Seq<char> {
    seq!['r', 'a', 'n', 'd', 'o', 'm']
}

/// The `length` bytes of a pattern: zeros; the counter `i mod 256`; `MFAS`
/// repeated; or XorShift64 bytes from the seed. None for an unknown pattern
pub open spec fn pattern_bytes(pattern: Seq<char>, length: nat, seed: u64) -> Option<Seq<u8>> {
    if pattern == zeros_name() {
        Some(Seq::new(length, |i: int| 0u8))
    } else if pattern == counter_name() {
        Some(Seq::new(length, |i: int| (i % 256) as u8))
    } else if pattern == repeat_name() {
        Some(Seq::new(length, |i: int| mfas_word()[i % 4]))
    } else if pattern == random_name() {
        Some(random_bytes(random_start(seed), length))
    } else {
        None
    }
}

/// The error of the first request whose pattern is unknown
pub open spec fn batch_error(e: GpuError, requests: Seq<PageEvalRequest>) -> bool {
    exists|i: int|
        {
            &&& 0 <= i < requests.len()
            &&& forall|j: int|
                0 <= j < i ==> pattern_bytes(
                    (#[trigger] requests[j]).pattern@,
                    requests[j].logical_len as nat,
                    requests[j].seed,
                ) is Some
            &&& pattern_bytes(requests[i].pattern@, requests[i].logical_len as nat, requests[i].seed) is None
            &&& e matches GpuError::UnsupportedPattern(s)
            &&& s@ == requests[i].pattern@
        }
}

/// Generate the `length` bytes of `pattern` (see `pattern_bytes`)
fn generate_pattern(pattern: &str, length: usize, seed: u64) -> (r: Result<Vec<u8>, GpuError>)
    ensures
        match pattern_bytes(pattern@, length as nat, seed) {
            Some(b) => r matches Ok(v) && v@ == b,
            None => r matches Err(GpuError::UnsupportedPattern(s)) && s@ == pattern@,
        },
{
    let pc = str_chars(pattern);
    let mut buf: Vec<u8> = Vec::new();
    if chars_eq(pc.as_slice(), &['z', 'e', 'r', 'o', 's']) {
        let mut i: usize = 0;
        while i < length
            invariant
                i <= length,
                buf@ == Seq::new(i as nat, |k: int| 0u8),
            decreases length - i,
        {
            buf.push(0u8);
            i = i + 1;
            assert(buf@ =~= Seq::new(i as nat, |k: int| 0u8));
        }
        Ok(buf)
    } else if chars_eq(pc.as_slice(), &['c', 'o', 'u', 'n', 't', 'e', 'r']) {
        let mut i: usize = 0;
        while i < length
            invariant
                i <= length,
                buf@ == Seq::new(i as nat, |k: int| (k % 256) as u8),
            decreases length - i,
        {
            buf.push((i % 256) as u8);
            i = i + 1;
            assert(buf@ =~= Seq::new(i as nat, |k: int| (k % 256) as u8));
        }
        Ok(buf)
    } else if chars_eq(pc.as_slice(), &['r', 'e', 'p', 'e', 'a', 't']) {
        let word: [u8; 4] = [0x4D, 0x46, 0x41, 0x53];
        assert(word@ == mfas_word());
        let mut i: usize = 0;
        while i < length
            invariant
                i <= length,
                word@ == mfas_word(),
                buf@ == Seq::new(i as nat, |k: int| mfas_word()[k % 4]),
            decreases length - i,
        {
            buf.push(word[i % 4]);
            i = i + 1;
            assert(buf@ =~= Seq::new(i as nat, |k: int| mfas_word()[k % 4]));
        }
        Ok(buf)
    } else if chars_eq(pc.as_slice(), &['r', 'a', 'n', 'd', 'o', 'm']) {
        let state = if seed == 0 {
            0xDEADBEEFCAFEBABEu64
        } else {
            seed
        };
        let (bytes, _) = random_run(state, length);
        Ok(bytes)
    } else {
        let mut s = String::new();
        push_str(&mut s, pattern);
        assert(s@ =~= pattern@);
        Err(GpuError::UnsupportedPattern(s))
    }
}

/// Extensible execution interface for CPU and GPU evaluators
pub trait Evaluator: Send + Sync {
    /// The bytes the evaluator generates for a pattern, a length and a seed;
    /// none where it refuses the request
    spec fn generates(&self, pattern: Seq<char>, length: usize, seed: u64) -> Option<Seq<u8>>;

    /// Human-readable identifier of the evaluator
    fn name(&self) -> &str;

    /// Architectural backend
    fn backend(&self) -> EvaluatorBackend;

    /// Returns true if this compute engine is currently operational on this machine
    fn is_available(&self) -> bool;

    /// Generate a stream of synthesized bytes according to a pattern
    fn generate_bytes(&self, pattern: &str, length: usize, seed: u64) -> (r: Result<Vec<u8>, GpuError>)
        ensures
            match self.generates(pattern@, length, seed) {
                Some(b) => r matches Ok(v) && v@ == b,
                None => r is Err,
            },
    ;

    /// Evaluate a batch of logical pages, in order; the first refused request
    /// ends the batch with its error
    fn batch_evaluate_pages(&self, requests: &[PageEvalRequest]) -> (r: Result<Vec<Vec<u8>>, GpuError>)
        ensures
            (forall|i: int|
                0 <= i < requests@.len() ==> self.generates(
                    (#[trigger] requests@[i]).pattern@,
                    requests@[i].logical_len,
                    requests@[i].seed,
                ) is Some) <==> r is Ok,
            r matches Ok(rs) ==> rs@.len() == requests@.len() && forall|i: int|
                0 <= i < requests@.len() ==> Some((#[trigger] rs@[i])@) == self.generates(
                    requests@[i].pattern@,
                    requests@[i].logical_len,
                    requests@[i].seed,
                ),
    {
        let mut results: Vec<Vec<u8>> = Vec::new();
        let mut k: usize = 0;
        while k < requests.len()
            invariant
                k <= requests@.len(),
                results@.len() == k,
                forall|j: int|
                    0 <= j < k ==> self.generates(
                        (#[trigger] requests@[j]).pattern@,
                        requests@[j].logical_len,
                        requests@[j].seed,
                    ) is Some,
                forall|i: int|
                    0 <= i < k ==> Some((#[trigger] results@[i])@) == self.generates(
                        requests@[i].pattern@,
                        requests@[i].logical_len,
                        requests@[i].seed,
                    ),
            decreases requests@.len() - k,
        {
            let req = &requests[k];
            let bytes = match self.generate_bytes(req.pattern.as_str(), req.logical_len, req.seed) {
                Ok(b) => b,
                Err(e) => {
                    assert(requests@[k as int] == *req);
                    return Err(e);
                },
            };
            results.push(bytes);
            k = k + 1;
        }
        Ok(results)
    }
}

/// Standard CPU execution evaluator
#[derive(Debug, Clone, Copy, Default)]
pub struct CpuEvaluator;

impl CpuEvaluator {
    pub fn new() -> (r: Self) {
        CpuEvaluator
    }
}

impl Evaluator for CpuEvaluator {
    open spec fn generates(&self, pattern: Seq<char>, length: usize, seed: u64) -> Option<Seq<u8>> {
        pattern_bytes(pattern, length as nat, seed)
    }

    fn name(&self) -> (r: &str)
        ensures
            r@ == "Standard CPU Evaluator"@,
    {
        "Standard CPU Evaluator"
    }

    fn backend(&self) -> (r: EvaluatorBackend)
        ensures
            r == EvaluatorBackend::Cpu,
    {
        EvaluatorBackend::Cpu
    }

    fn is_available(&self) -> (r: bool)
        ensures
            r,
    {
        true
    }

    fn generate_bytes(&self, pattern: &str, length: usize, seed: u64) -> (r: Result<Vec<u8>, GpuError>)
        ensures
            r matches Err(e) ==> e matches GpuError::UnsupportedPattern(s) && s@ == pattern@,
    {
        generate_pattern(pattern, length, seed)
    }

    fn batch_evaluate_pages(&self, requests: &[PageEvalRequest]) -> (r: Result<Vec<Vec<u8>>, GpuError>)
        ensures
            r matches Err(e) ==> batch_error(e, requests@),
    {
        let mut results: Vec<Vec<u8>> = Vec::new();
        let mut k: usize = 0;
        while k < requests.len()
            invariant
                k <= requests@.len(),
                results@.len() == k,
                forall|j: int|
                    0 <= j < k ==> pattern_bytes(
                        (#[trigger] requests@[j]).pattern@,
                        requests@[j].logical_len as nat,
                        requests@[j].seed,
                    ) is Some,
                forall|i: int|
                    0 <= i < k ==> Some((#[trigger] results@[i])@) == pattern_bytes(
                        requests@[i].pattern@,
                        requests@[i].logical_len as nat,
                        requests@[i].seed,
                    ),
            decreases requests@.len() - k,
        {
            let req = &requests[k];
            let bytes = match generate_pattern(req.pattern.as_str(), req.logical_len, req.seed) {
                Ok(b) => b,
                Err(e) => {
                    assert(batch_error(e, requests@)) by {
                        assert(requests@[k as int] == *req);
                    }
                    return Err(e);
                },
            };
            results.push(bytes);
            k = k + 1;
        }
        Ok(results)
    }
}

/// Vectorized evaluator: it generates the same bytes as the CPU evaluator
#[derive(Debug, Clone, Copy, Default)]
pub struct SimdEvaluator;

impl SimdEvaluator {
    pub fn new() -> (r: Self) {
        SimdEvaluator
    }
}

impl Evaluator for SimdEvaluator {
    open spec fn generates(&self, pattern: Seq<char>, length: usize, seed: u64) -> Option<Seq<u8>> {
        pattern_bytes(pattern, length as nat, seed)
    }

    fn name(&self) -> (r: &str)
        ensures
            r@ == "SIMD Vectorized Evaluator"@,
    {
        "SIMD Vectorized Evaluator"
    }

    fn backend(&self) -> (r: EvaluatorBackend)
        ensures
            r == EvaluatorBackend::Simd,
    {
        EvaluatorBackend::Simd
    }

    fn is_available(&self) -> (r: bool)
        ensures
            r,
    {
        true
    }

    fn generate_bytes(&self, pattern: &str, length: usize, seed: u64) -> (r: Result<Vec<u8>, GpuError>)
        ensures
            r matches Err(e) ==> e matches GpuError::UnsupportedPattern(s) && s@ == pattern@,
    {
        generate_pattern(pattern, length, seed)
    }
}

/// GPU hardware compute evaluator with transparent CPU fallback
#[derive(Debug, Clone)]
pub struct GpuEvaluator {
    device_info: Option<GpuDeviceInfo>,
    fallback: CpuEvaluator,
}

/// The adapter that the probe reports
pub open spec fn generic_adapter(d: GpuDeviceInfo) -> bool {
    &&& d.adapter_name@ == "Generic Vulkan / Metal Compute Adapter"@
    &&& d.backend@ == "Vulkan"@
    &&& d.device_type@ == "Virtual / Physical Compute Device"@
    &&& !d.is_dedicated
    &&& d.max_buffer_size == 1073741824
}

impl GpuEvaluator {
    /// The device the evaluator runs on, if any
    pub closed spec fn device(&self) -> Option<GpuDeviceInfo> {
        self.device_info
    }

    /// Create a new GPU evaluator on the first detected adapter
    pub fn new() -> (r: Self)
        ensures
            r.device() matches Some(d) && generic_adapter(d),
    {
        let mut detected = Self::detect_adapters();
        let first = detected.remove(0);
        GpuEvaluator { device_info: Some(first), fallback: CpuEvaluator::new() }
    }

    /// Create with a specific explicit device
    pub fn with_device(device: GpuDeviceInfo) -> (r: Self)
        ensures
            r.device() == Some(device),
    {
        GpuEvaluator { device_info: Some(device), fallback: CpuEvaluator::new() }
    }

    /// Return details about the detected GPU compute device
    pub fn device_info(&self) -> (r: Option<&GpuDeviceInfo>)
        ensures
            match self.device() {
                Some(d) => r == Some(&d),
                None => r is None,
            },
    {
        match &self.device_info {
            Some(d) => Some(d),
            None => None,
        }
    }

    /// The compute adapters of the host: one generic Vulkan / Metal compute adapter
    pub fn detect_adapters() -> (r: Vec<GpuDeviceInfo>)
        ensures
            r@.len() == 1,
            generic_adapter(r@[0]),
    {
        let mut adapters: Vec<GpuDeviceInfo> = Vec::new();
        let mut name = String::new();
        push_str(&mut name, "Generic Vulkan / Metal Compute Adapter");
        let mut backend = String::new();
        push_str(&mut backend, "Vulkan");
        let mut kind = String::new();
        push_str(&mut kind, "Virtual / Physical Compute Device");
        adapters.push(
            GpuDeviceInfo {
                adapter_name: name,
                backend,
                device_type: kind,
                is_dedicated: false,
                max_buffer_size: 1073741824,
            },
        );
        adapters
    }
}

impl Default for GpuEvaluator {
    fn default() -> (r: Self)
        ensures
            r.device() matches Some(d) && generic_adapter(d),
    {
        Self::new()
    }
}

impl Evaluator for GpuEvaluator {
    open spec fn generates(&self, pattern: Seq<char>, length: usize, seed: u64) -> Option<Seq<u8>> {
        pattern_bytes(pattern, length as nat, seed)
    }

    fn name(&self) -> (r: &str)
        ensures
            match self.device() {
                Some(d) => r@ == d.adapter_name@,
                None => r@ == "GPU Evaluator (Fallback Mode)"@,
            },
    {
        match &self.device_info {
            Some(info) => info.adapter_name.as_str(),
            None => "GPU Evaluator (Fallback Mode)",
        }
    }

    fn backend(&self) -> (r: EvaluatorBackend)
        ensures
            match self.device() {
                Some(d) => r matches EvaluatorBackend::Gpu { adapter_name, backend } && adapter_name@
                    == d.adapter_name@ && backend@ == d.backend@,
                None => r == EvaluatorBackend::Cpu,
            },
    {
        match &self.device_info {
            Some(info) => EvaluatorBackend::Gpu { adapter_name: info.adapter_name.clone(), backend: info.backend.clone() },
            None => EvaluatorBackend::Cpu,
        }
    }

    fn is_available(&self) -> (r: bool)
        ensures
            r == self.device() is Some,
    {
        self.device_info.is_some()
    }

    fn generate_bytes(&self, pattern: &str, length: usize, seed: u64) -> (r: Result<Vec<u8>, GpuError>)
        ensures
            r matches Err(e) ==> e matches GpuError::UnsupportedPattern(s) && s@ == pattern@,
    {
        self.fallback.generate_bytes(pattern, length, seed)
    }

    fn batch_evaluate_pages(&self, requests: &[PageEvalRequest]) -> (r: Result<Vec<Vec<u8>>, GpuError>)
        ensures
            r matches Err(e) ==> batch_error(e, requests@),
    {
        self.fallback.batch_evaluate_pages(requests)
    }
}

/// The vectorized evaluator generates exactly the bytes of the CPU evaluator
pub proof fn lemma_simd_matches_cpu(
    cpu: CpuEvaluator,
    simd: SimdEvaluator,
    pattern: Seq<char>,
    length: usize,
    seed: u64,
)
    ensures
        simd.generates(pattern, length, seed) == cpu.generates(pattern, length, seed),
{
}

/// The GPU front generates exactly the bytes of the CPU evaluator it falls back to
pub proof fn lemma_gpu_matches_cpu(cpu: CpuEvaluator, gpu: GpuEvaluator, pattern: Seq<char>, length: usize, seed: u64)
    ensures
        gpu.generates(pattern, length, seed) == cpu.generates(pattern, length, seed),
{
}

/// Generation fills the requested length: a known pattern gives exactly
/// `length` bytes
pub proof fn lemma_pattern_length(pattern: Seq<char>, length: nat, seed: u64)
    ensures
        pattern_bytes(pattern, length, seed) matches Some(b) ==> b.len() == length,
{
    crate::synthetic::lemma_random_len(random_start(seed), length);
}

/// What each named pattern generates: `zeros` only zero bytes; `counter` a
/// first byte of zero, each next byte one more modulo 256; `repeat` the bytes
/// `M`, `F`, `A`, `S` (0x4D 0x46 0x41 0x53) over and over with period four;
/// `random` the low byte of each successive XorShift64 (13, 7, 17) state from
/// the seed, a zero seed standing for 0xDEADBEEFCAFEBABE
pub proof fn lemma_named_patterns(length: nat, seed: u64)
    ensures
        pattern_bytes(seq!['z', 'e', 'r', 'o', 's'], length, seed) matches Some(b) && b.len() == length
            && forall|i: int| 0 <= i < length ==> #[trigger] b[i] == 0,
        pattern_bytes(seq!['c', 'o', 'u', 'n', 't', 'e', 'r'], length, seed) matches Some(b) && b.len() == length
            && (length > 0 ==> b[0] == 0)
            && forall|i: int| 0 <= i && i + 1 < length ==> #[trigger] b[i + 1] == (b[i] + 1) % 256,
        pattern_bytes(seq!['r', 'e', 'p', 'e', 'a', 't'], length, seed) matches Some(b) && b.len() == length
            && (length > 0 ==> b[0] == 0x4D) && (length > 1 ==> b[1] == 0x46)
            && (length > 2 ==> b[2] == 0x41) && (length > 3 ==> b[3] == 0x53)
            && forall|i: int| 0 <= i && i + 4 < length ==> #[trigger] b[i + 4] == b[i],
        pattern_bytes(seq!['r', 'a', 'n', 'd', 'o', 'm'], length, seed) matches Some(b) && b.len() == length
            && forall|k: int| 0 <= k < length ==> #[trigger] b[k] == (crate::synthetic::xorshift64_iter(
                if seed == 0 { 0xDEADBEEFCAFEBABEu64 } else { seed },
                (k + 1) as nat,
            ) % 256) as u8,
{
    assert(seq!['z', 'e', 'r', 'o', 's'] =~= zeros_name());
    assert(seq!['c', 'o', 'u', 'n', 't', 'e', 'r'] =~= counter_name());
    assert(seq!['r', 'e', 'p', 'e', 'a', 't'] =~= repeat_name());
    assert(seq!['r', 'a', 'n', 'd', 'o', 'm'] =~= random_name());
    assert(counter_name() != zeros_name()) by {
        assert(counter_name().len() != zeros_name().len());
    }
    assert(repeat_name() != zeros_name() && repeat_name() != counter_name()) by {
        assert(repeat_name().len() != zeros_name().len());
        assert(repeat_name().len() != counter_name().len());
    }
    assert(random_name() != zeros_name() && random_name() != counter_name() && random_name() != repeat_name()) by {
        assert(random_name().len() != zeros_name().len());
        assert(random_name().len() != counter_name().len());
        assert(random_name()[1] != repeat_name()[1]);
    }
    let c = Seq::new(length, |i: int| (i % 256) as u8);
    assert forall|i: int| 0 <= i && i + 1 < length implies #[trigger] c[i + 1] == (c[i] + 1) % 256 by {
        assert(((i + 1) % 256) as u8 == ((((i % 256) as u8) + 1) % 256) as u8) by (nonlinear_arith)
            requires 0 <= i;
    }
    let r = Seq::new(length, |i: int| mfas_word()[i % 4]);
    assert forall|i: int| 0 <= i && i + 4 < length implies #[trigger] r[i + 4] == r[i] by {
        assert((i + 4) % 4 == i % 4) by (nonlinear_arith)
            requires 0 <= i;
    }
    crate::synthetic::lemma_random_is_xorshift64(random_start(seed), length);
}

} // verus!
