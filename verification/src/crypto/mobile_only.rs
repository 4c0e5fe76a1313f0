//! Phone-only host admission.
//!
//! Mining, relay attach, and minting are refused on PC-class and emulated
//! hosts. Reading the DAG is allowed anywhere. Measuring the host is the
//! caller's part; the policy over what was measured is here.

use vstd::prelude::*;

use crate::anti_bot::attestation::{verify_hardware_authenticity, AttestationView,
    DeviceAttestation, SecurityError};
use crate::anti_bot::profile::DeviceClass;
use crate::text::same_text;

verus! {

/// Environment variables that cloud platforms set.
pub const CLOUD_ENV_KEYS: [&'static str; 15] = [
    "KUBERNETES_SERVICE_HOST",
    "KUBERNETES_SERVICE_PORT",
    "KUBERNETES",
    "AWS_REGION",
    "AWS_DEFAULT_REGION",
    "AWS_EXECUTION_ENV",
    "AWS_LAMBDA_FUNCTION_NAME",
    "ECS_CONTAINER_METADATA_URI",
    "ECS_CONTAINER_METADATA_URI_V4",
    "GOOGLE_CLOUD_PROJECT",
    "GCLOUD_PROJECT",
    "FUNCTION_TARGET",
    "K_SERVICE",
    "AZURE_FUNCTIONS_ENVIRONMENT",
    "WEBSITE_INSTANCE_ID",
];

/// Admission failure. Every variant is critical.
#[derive(Clone, Copy, Debug, PartialEq, Eq, Structural)]
pub enum ShieldError {
    PcArchitecture,
    EmulatorTiming,
    CloudEnvironment,
    DatacenterClass,
    MinerModeRequired,
    AttachFailed,
}

impl ShieldError {
    /// All shield failures isolate the host.
    pub fn is_critical(&self) -> (r: bool)
        ensures
            r,
    {
        true
    }

    pub open spec fn spec_message(&self) -> Seq<char> {
        match self {
            ShieldError::PcArchitecture =>
                "critical: mining/relay/mint is phone-only; host is x86/PC"@,
            ShieldError::EmulatorTiming =>
                "critical: L1/L2 cache timing matches a VM or emulator"@,
            ShieldError::CloudEnvironment =>
                "critical: cloud/datacenter environment variables present"@,
            ShieldError::DatacenterClass =>
                "critical: device attestation is datacenter/PC class"@,
            ShieldError::MinerModeRequired =>
                "critical: active miner loop requires explicit miner mode"@,
            ShieldError::AttachFailed => "critical: miner/relay attach was refused"@,
        }
    }

    /// The error as a line of text.
    pub fn message(&self) -> (r: &'static str)
        ensures
            r@ == self.spec_message(),
    {
        match self {
            ShieldError::PcArchitecture =>
                "critical: mining/relay/mint is phone-only; host is x86/PC",
            ShieldError::EmulatorTiming =>
                "critical: L1/L2 cache timing matches a VM or emulator",
            ShieldError::CloudEnvironment =>
                "critical: cloud/datacenter environment variables present",
            ShieldError::DatacenterClass =>
                "critical: device attestation is datacenter/PC class",
            ShieldError::MinerModeRequired =>
                "critical: active miner loop requires explicit miner mode",
            ShieldError::AttachFailed => "critical: miner/relay attach was refused",
        }
    }
}

/// Instruction set of the host.
#[derive(Clone, Copy, Debug, PartialEq, Eq, Structural)]
pub enum HostArch {
    X86_64,
    X86,
    Aarch64,
    Other,
}

impl HostArch {
    /// The instruction set that a target-architecture name stands for.
    pub fn detect(arch: &str) -> (r: Self)
        ensures
            arch@ == "x86_64"@ ==> r == HostArch::X86_64,
            arch@ == "x86"@ ==> r == HostArch::X86,
            arch@ == "aarch64"@ ==> r == HostArch::Aarch64,
            arch@ != "x86_64"@ && arch@ != "x86"@ && arch@ != "aarch64"@ ==> r == HostArch::Other,
    {
        proof {
            reveal_strlit("x86_64");
            reveal_strlit("x86");
            reveal_strlit("aarch64");
            assert("x86_64"@.len() != "x86"@.len());
            assert("x86_64"@.len() != "aarch64"@.len());
            assert("x86"@.len() != "aarch64"@.len());
        }
        if same_text(arch, "x86_64") {
            HostArch::X86_64
        } else if same_text(arch, "x86") {
            HostArch::X86
        } else if same_text(arch, "aarch64") {
            HostArch::Aarch64
        } else {
            HostArch::Other
        }
    }

    pub fn is_pc_class(self) -> (r: bool)
        ensures
            r == (self == HostArch::X86_64 || self == HostArch::X86),
    {
        match self {
            HostArch::X86_64 | HostArch::X86 => true,
            _ => false,
        }
    }
}

/// What was measured of a host (or a constructed attempt).
#[derive(Debug)]
pub struct HostObservation {
    pub arch: HostArch,
    pub cache_samples: Vec<u64>,
    pub cloud: bool,
    pub device_class: DeviceClass,
}

impl HostObservation {
    /// The observation of the running process, from what the caller measured.
    pub fn probe_this_process(arch: HostArch, cache_samples: Vec<u64>, cloud: bool) -> (r: Self)
        ensures
            r.arch == arch,
            r.cache_samples == cache_samples,
            r.cloud == cloud,
            r.device_class == DeviceClass::PersonalComputer,
    {
        HostObservation { arch, cache_samples, cloud, device_class: DeviceClass::PersonalComputer }
    }

    /// A synthetic x86 emulator farm.
    pub fn x86_emulator() -> (r: Self)
        ensures
            r.arch == HostArch::X86_64,
            r.cache_samples@ == seq![40u64, 40, 40, 40, 40, 40, 40, 40],
            !r.cloud,
            r.device_class == DeviceClass::PersonalComputer,
    {
        let samples: Vec<u64> = vec![40, 40, 40, 40, 40, 40, 40, 40];
        assert(samples@ =~= seq![40u64, 40, 40, 40, 40, 40, 40, 40]);
        HostObservation {
            arch: HostArch::X86_64,
            cache_samples: samples,
            cloud: false,
            device_class: DeviceClass::PersonalComputer,
        }
    }

    /// Why this host may not mine or relay, if it may not.
    pub open spec fn refusal(&self) -> Option<ShieldError> {
        if self.cloud {
            Some(ShieldError::CloudEnvironment)
        } else if self.arch != HostArch::Aarch64 {
            Some(ShieldError::PcArchitecture)
        } else if emulated(self.cache_samples@) {
            Some(ShieldError::EmulatorTiming)
        } else {
            None
        }
    }
}

/// Admits the running host as a mobile miner or relay. Every PC-class host is
/// refused; a phone is refused when its cache timings look emulated.
pub fn enforce_real_mobile(host: &HostObservation) -> (r: Result<(), ShieldError>)
    ensures
        match r {
            Ok(()) => host.refusal() is None,
            Err(e) => host.refusal() == Some(e),
        },
{
    enforce_observation(host)
}

/// The admission policy over an explicit observation.
pub fn enforce_observation(obs: &HostObservation) -> (r: Result<(), ShieldError>)
    ensures
        match r {
            Ok(()) => obs.refusal() is None,
            Err(e) => obs.refusal() == Some(e),
        },
{
    if obs.cloud {
        return Err(ShieldError::CloudEnvironment);
    }
    match obs.arch {
        HostArch::X86_64 | HostArch::X86 | HostArch::Other => Err(ShieldError::PcArchitecture),
        HostArch::Aarch64 => {
            if cache_looks_like_emulator(obs.cache_samples.as_slice()) {
                return Err(ShieldError::EmulatorTiming);
            }
            Ok(())
        },
    }
}

/// Why a quote does not admit its device, if it does not.
pub open spec fn quote_refusal(a: AttestationView) -> Option<ShieldError> {
    if a.class == DeviceClass::PersonalComputer {
        Some(ShieldError::DatacenterClass)
    } else {
        match a.fault() {
            None => None,
            Some(SecurityError::VirtualMachineFingerprint) => Some(ShieldError::EmulatorTiming),
            Some(SecurityError::EmulatorTiming) => Some(ShieldError::EmulatorTiming),
            Some(_) => Some(ShieldError::DatacenterClass),
        }
    }
}

/// Admits a device by its hardware quote.
pub fn enforce_device_attestation(att: &DeviceAttestation) -> (r: Result<(), ShieldError>)
    ensures
        match r {
            Ok(()) => quote_refusal(att@) is None,
            Err(e) => quote_refusal(att@) == Some(e),
        },
{
    match att.class {
        DeviceClass::PersonalComputer => {
            return Err(ShieldError::DatacenterClass);
        },
        _ => {},
    }
    match verify_hardware_authenticity(att) {
        Ok(_) => Ok(()),
        Err(SecurityError::VirtualMachineFingerprint) | Err(SecurityError::EmulatorTiming) => Err(
            ShieldError::EmulatorTiming,
        ),
        Err(_) => Err(ShieldError::DatacenterClass),
    }
}

/// Whether `k` is one of the cloud keys.
pub open spec fn is_cloud_key(k: Seq<char>) -> bool {
    exists|i: int| 0 <= i < 15 && (#[trigger] CLOUD_ENV_KEYS@[i])@ == k
}

fn known_cloud_key(k: &str) -> (r: bool)
    ensures
        r == is_cloud_key(k@),
{
    let mut i: usize = 0;
    while i < 15
        invariant
            i <= 15,
            forall|j: int| 0 <= j < i ==> (#[trigger] CLOUD_ENV_KEYS@[j])@ != k@,
        decreases 15 - i,
    {
        if same_text(CLOUD_ENV_KEYS[i], k) {
            assert(CLOUD_ENV_KEYS@[i as int]@ == k@);
            return true;
        }
        i += 1;
    }
    false
}

/// Whether a cloud variable with a non-empty value is among `pairs`.
pub fn cloud_environment_from_pairs(pairs: &[(&str, &str)]) -> (r: bool)
    ensures
        r == exists|i: int|
            0 <= i < pairs@.len() && (#[trigger] pairs@[i]).1@.len() > 0 && is_cloud_key(
                pairs@[i].0@,
            ),
{
    let mut i: usize = 0;
    while i < pairs.len()
        invariant
            i <= pairs@.len(),
            forall|j: int|
                0 <= j < i ==> !((#[trigger] pairs@[j]).1@.len() > 0 && is_cloud_key(
                    pairs@[j].0@,
                )),
        decreases pairs@.len() - i,
    {
        let (k, v) = pairs[i];
        assert(pairs@[i as int] == (k, v));
        if !v.is_empty() && known_cloud_key(k) {
            return true;
        }
        i += 1;
    }
    false
}

/// The sum of the samples.
pub open spec fn sample_sum(s: Seq<u64>) -> nat
    decreases s.len(),
{
    if s.len() == 0 {
        0
    } else {
        sample_sum(s.drop_last()) + s.last() as nat
    }
}

/// The distance of two numbers.
pub open spec fn distance(a: nat, b: nat) -> nat {
    if a < b {
        (b - a) as nat
    } else {
        (a - b) as nat
    }
}

/// The sum of the squared distances from `mean`, each stopped at the largest
/// `u64`.
pub open spec fn square_sum(s: Seq<u64>, mean: nat) -> nat
    decreases s.len(),
{
    if s.len() == 0 {
        0
    } else {
        let d = distance(s.last() as nat, mean);
        let sq = if d * d > u64::MAX {
            u64::MAX as nat
        } else {
            d * d
        };
        square_sum(s.drop_last(), mean) + sq
    }
}

/// The integer sample variance.
pub open spec fn variance_of(s: Seq<u64>) -> nat {
    if s.len() < 2 {
        0
    } else {
        square_sum(s, sample_sum(s) / s.len()) / (s.len() - 1) as nat
    }
}

/// Too few, identical, or variance-free timings look like a virtual machine.
pub open spec fn emulated(samples: Seq<u64>) -> bool {
    ||| samples.len() < 4
    ||| forall|i: int, j: int| 0 <= i < j < samples.len() ==> samples[i] == samples[j]
    ||| variance_of(samples) == 0
}

/// Too-clean timings look like a virtual machine.
pub fn cache_looks_like_emulator(samples: &[u64]) -> (r: bool)
    ensures
        r == emulated(samples@),
{
    if samples.len() < 4 {
        return true;
    }
    let mut uniform = true;
    let mut i: usize = 1;
    while i < samples.len()
        invariant
            1 <= i <= samples@.len(),
            uniform ==> forall|j: int| 0 <= j < i ==> #[trigger] samples@[j] == samples@[0],
            !uniform ==> exists|j: int|
                0 <= j < samples@.len() && #[trigger] samples@[j] != samples@[0],
        decreases samples@.len() - i,
    {
        if samples[i] != samples[0] {
            assert(samples@[i as int] != samples@[0]);
            uniform = false;
        }
        i += 1;
    }
    if uniform {
        assert forall|a: int, b: int| 0 <= a < b < samples@.len() implies samples@[a] == samples@[b] by {
            assert(samples@[a] == samples@[0]);
            assert(samples@[b] == samples@[0]);
        }
        return true;
    }
    proof {
        let j = choose|j: int| 0 <= j < samples@.len() && #[trigger] samples@[j] != samples@[0];
        assert(j > 0);
        assert(samples@[0] != samples@[j]);
    }
    integer_variance(samples) == 0
}

fn integer_variance(samples: &[u64]) -> (r: u128)
    ensures
        r == variance_of(samples@),
{
    if samples.len() < 2 {
        return 0;
    }
    let n: u128 = samples.len() as u128;
    let mut sum: u128 = 0;
    let mut i: usize = 0;
    while i < samples.len()
        invariant
            i <= samples@.len(),
            sum == sample_sum(samples@.take(i as int)),
            sum <= i * u64::MAX,
        decreases samples@.len() - i,
    {
        proof {
            assert(samples@.take(i + 1).drop_last() =~= samples@.take(i as int));
            lemma_times_max(i as int);
        }
        sum = sum + samples[i] as u128;
        i += 1;
    }
    assert(samples@.take(i as int) =~= samples@);
    let mean: u128 = sum / n;
    proof {
        assert(sum / n <= u64::MAX) by (nonlinear_arith)
            requires
                sum <= n * u64::MAX,
                n > 0,
        ;
    }
    let mut acc: u128 = 0;
    let mut j: usize = 0;
    while j < samples.len()
        invariant
            j <= samples@.len(),
            mean <= u64::MAX,
            acc == square_sum(samples@.take(j as int), mean as nat),
            acc <= j * u64::MAX,
        decreases samples@.len() - j,
    {
        let x: u128 = samples[j] as u128;
        let d: u128 = if x < mean { mean - x } else { x - mean };
        proof {
            assert(samples@.take(j + 1).drop_last() =~= samples@.take(j as int));
            lemma_times_max(j as int);
            assert(d * d <= u64::MAX * u64::MAX) by (nonlinear_arith)
                requires
                    d <= u64::MAX,
            ;
        }
        let mut sq: u128 = d * d;
        if sq > u64::MAX as u128 {
            sq = u64::MAX as u128;
        }
        acc = acc + sq;
        j += 1;
    }
    assert(samples@.take(j as int) =~= samples@);
    acc / (n - 1)
}

proof fn lemma_times_max(i: int)
    requires
        0 <= i < usize::MAX,
    ensures
        (i + 1) * u64::MAX == i * u64::MAX + u64::MAX,
        (i + 1) * u64::MAX <= u128::MAX,
{
    assert((i + 1) * u64::MAX == i * u64::MAX + u64::MAX) by (nonlinear_arith);
    assert((i + 1) * u64::MAX <= u64::MAX * u64::MAX) by (nonlinear_arith)
        requires
            0 <= i < u64::MAX,
    ;
}

/// Which hosts are let through: an ARM host outside any cloud, with four timings or more that
/// are not all the same and that vary.
pub proof fn law_which_hosts_may_mine(h: &HostObservation)
    ensures
        h.cloud ==> h.refusal() == Some(ShieldError::CloudEnvironment),
        !h.cloud && h.arch != HostArch::Aarch64 ==> h.refusal() == Some(
            ShieldError::PcArchitecture,
        ),
        h.refusal() is None ==> h.cache_samples@.len() >= 4 && exists|i: int, j: int|
            0 <= i < j < h.cache_samples@.len() && h.cache_samples@[i] != h.cache_samples@[j],
        !h.cloud && h.arch == HostArch::Aarch64 ==> h.refusal() == (if emulated(
            h.cache_samples@,
        ) {
            Some(ShieldError::EmulatorTiming)
        } else {
            None
        }),
{
}

/// Timings of which one lies further from their mean than there are timings are no emulator's.
pub proof fn law_spread_timings_are_real(s: Seq<u64>, i: int)
    requires
        4 <= s.len() <= 65_536,
        0 <= i < s.len(),
        s[i] >= sample_sum(s) / s.len() + s.len() || sample_sum(s) / s.len() >= s[i] + s.len(),
    ensures
        !emulated(s),
{
    let n = s.len();
    let m = sample_sum(s) / n;
    lemma_square_in_sum(s, m, i);
    let d = distance(s[i] as nat, m);
    assert(d >= n);
    assert(d * d >= n) by (nonlinear_arith)
        requires
            d >= n,
            n >= 4,
    ;
    assert(square_sum(s, m) >= n);
    assert(square_sum(s, m) / (n - 1) as nat >= 1) by (nonlinear_arith)
        requires
            square_sum(s, m) >= n,
            n >= 4,
    ;
    if forall|a: int, b: int| 0 <= a < b < s.len() ==> s[a] == s[b] {
        assert forall|k: int| 0 <= k < s.len() implies #[trigger] s[k] == s[0] by {
            if k > 0 {
                assert(s[0] == s[k]);
            }
        }
        lemma_sum_of_equals(s, s[0]);
        assert(m == s[0]) by (nonlinear_arith)
            requires
                m == sample_sum(s) / n,
                sample_sum(s) == n * s[0],
                n >= 4,
        ;
        assert(s[i] == s[0]);
    }
}

proof fn lemma_sum_of_equals(s: Seq<u64>, x: u64)
    requires
        forall|k: int| 0 <= k < s.len() ==> #[trigger] s[k] == x,
    ensures
        sample_sum(s) == s.len() * x,
    decreases s.len(),
{
    if s.len() > 0 {
        let h = s.drop_last();
        assert forall|k: int| 0 <= k < h.len() implies #[trigger] h[k] == x by {
            assert(s[k] == x);
        }
        lemma_sum_of_equals(h, x);
        assert(s[s.len() - 1] == x);
        assert(h.len() * x + x == s.len() * x) by (nonlinear_arith)
            requires
                h.len() + 1 == s.len(),
        ;
    }
}

proof fn lemma_square_in_sum(s: Seq<u64>, mean: nat, i: int)
    requires
        0 <= i < s.len(),
    ensures
        ({
            let d = distance(s[i] as nat, mean);
            square_sum(s, mean) >= (if d * d > u64::MAX {
                u64::MAX as nat
            } else {
                d * d
            })
        }),
    decreases s.len(),
{
    if i < s.len() - 1 {
        lemma_square_in_sum(s.drop_last(), mean, i);
        assert(s.drop_last()[i] == s[i]);
    }
}

/// A quote admits its device where it is no PC's and has no fault.
pub proof fn law_which_quotes_admit(a: AttestationView)
    ensures
        quote_refusal(a) is None <==> a.class != DeviceClass::PersonalComputer && a.fault() is None,
        a.class == DeviceClass::PersonalComputer ==> quote_refusal(a) == Some(
            ShieldError::DatacenterClass,
        ),
{
}

} // verus!
