//! Platform integration boundary.
//!
//! The core never assumes that it owns an Android Root environment. Platform
//! features are discovered outside and exposed here as capabilities, so the runtime
//! can degrade from eBPF/TPROXY/TUN without contaminating flow or policy logic.

use crate::text;
use vstd::prelude::*;
use vstd::string::*;

verus! {

#[derive(Clone, Copy, Debug, PartialEq, Eq, Structural)]
pub enum PlatformKind {
    Android,
    Linux,
    Other,
}

/// The platform with that name.
pub open spec fn platform_of(os: Seq<char>) -> PlatformKind {
    if os == "android"@ {
        PlatformKind::Android
    } else if os == "linux"@ {
        PlatformKind::Linux
    } else {
        PlatformKind::Other
    }
}

impl PlatformKind {
    /// The platform that the name of the operating system stands for.
    pub fn current(os: &str) -> (r: PlatformKind)
        ensures
            r == platform_of(os@),
    {
        if text::same(os, "android") {
            PlatformKind::Android
        } else if text::same(os, "linux") {
            PlatformKind::Linux
        } else {
            PlatformKind::Other
        }
    }

    pub open spec fn spec_word(self) -> Seq<char> {
        match self {
            PlatformKind::Android => "android"@,
            PlatformKind::Linux => "linux"@,
            PlatformKind::Other => "other"@,
        }
    }

    pub fn word(self) -> (r: &'static str)
        ensures
            r@ == self.spec_word(),
    {
        match self {
            PlatformKind::Android => "android",
            PlatformKind::Linux => "linux",
            PlatformKind::Other => "other",
        }
    }
}

#[derive(Clone, Copy, Debug, PartialEq, Eq, Structural)]
pub enum SupportLevel {
    Available,
    Unavailable,
    Unknown,
}

impl SupportLevel {
    pub fn is_available(self) -> (r: bool)
        ensures
            r == (self is Available),
    {
        match self {
            SupportLevel::Available => true,
            _ => false,
        }
    }

    pub open spec fn spec_word(self) -> Seq<char> {
        match self {
            SupportLevel::Available => "available"@,
            SupportLevel::Unavailable => "unavailable"@,
            SupportLevel::Unknown => "unknown"@,
        }
    }

    pub fn word(self) -> (r: &'static str)
        ensures
            r@ == self.spec_word(),
    {
        match self {
            SupportLevel::Available => "available",
            SupportLevel::Unavailable => "unavailable",
            SupportLevel::Unknown => "unknown",
        }
    }
}

#[derive(Clone, Copy, Debug, PartialEq, Eq, Structural)]
pub struct PlatformCapabilities {
    pub platform: PlatformKind,
    pub tun: SupportLevel,
    pub tproxy: SupportLevel,
    pub ebpf: SupportLevel,
    pub btf: SupportLevel,
    pub bpffs: SupportLevel,
}

/// What was seen of the observable, non-destructive kernel and userspace surfaces.
#[derive(Debug)]
pub struct PlatformEvidence {
    /// `/dev/net/tun` exists.
    pub tun_device: bool,
    /// `/sys/kernel/btf/vmlinux` exists.
    pub btf_image: bool,
    /// `/sys/fs/bpf` exists.
    pub bpf_file_system: bool,
    /// `/proc/sys/kernel/unprivileged_bpf_disabled` exists.
    pub bpf_setting: bool,
    /// The text of `/proc/net/ip_tables_targets`, where it can be read.
    pub ip_tables_targets: Option<String>,
    /// The text of `/proc/modules`, where it can be read.
    pub modules: Option<String>,
}

/// The needle stands in the line.
pub open spec fn occurs(line: Seq<char>, needle: Seq<char>) -> bool {
    exists|i: int|
        0 <= i <= line.len() - needle.len() && #[trigger] line.subrange(i, i + needle.len())
            == needle
}

/// A line of the text holds the needle.
pub open spec fn mentions(content: Option<String>, needle: Seq<char>) -> bool {
    content matches Some(s) && exists|i: int|
        0 <= i < text::lines(s@).len() && occurs(#[trigger] text::lines(s@)[i], needle)
}

pub open spec fn level(seen: bool, otherwise: SupportLevel) -> SupportLevel {
    if seen {
        SupportLevel::Available
    } else {
        otherwise
    }
}

/// What the evidence shows. What no cheap look can refute stays unknown.
pub open spec fn capabilities_of(platform: PlatformKind, e: PlatformEvidence)
    -> PlatformCapabilities {
    if platform == PlatformKind::Other {
        PlatformCapabilities {
            platform,
            tun: SupportLevel::Unknown,
            tproxy: SupportLevel::Unknown,
            ebpf: SupportLevel::Unknown,
            btf: SupportLevel::Unknown,
            bpffs: SupportLevel::Unknown,
        }
    } else {
        PlatformCapabilities {
            platform,
            tun: level(e.tun_device, SupportLevel::Unavailable),
            tproxy: level(
                mentions(e.ip_tables_targets, "TPROXY"@) || mentions(e.modules, "xt_TPROXY"@),
                SupportLevel::Unknown,
            ),
            ebpf: level(
                e.btf_image || e.bpf_file_system || e.bpf_setting,
                SupportLevel::Unknown,
            ),
            btf: level(e.btf_image, SupportLevel::Unavailable),
            bpffs: level(e.bpf_file_system, SupportLevel::Unavailable),
        }
    }
}

fn line_mentions(line: &[char], needle: &[char]) -> (r: bool)
    ensures
        r == occurs(line@, needle@),
{
    if needle.len() > line.len() {
        return false;
    }
    let width: usize = needle.len();
    let whole: usize = line.len();
    let last: usize = whole - width;
    let mut i: usize = 0;
    loop
        invariant
            needle@.len() <= line@.len(),
            whole == line@.len(),
            width == needle@.len(),
            last == whole - width,
            i <= last,
            forall|j: int|
                0 <= j < i ==> #[trigger] line@.subrange(j, j + needle@.len()) != needle@,
        decreases last - i,
    {
        let part = &line[i..i + width];
        assert(part@ =~= line@.subrange(i as int, i + needle@.len()));
        if text::equal(part, needle) {
            return true;
        }
        if i == last {
            return false;
        }
        i = i + 1;
    }
}

fn file_contains(content: &Option<String>, needle: &str) -> (r: bool)
    ensures
        r == mentions(*content, needle@),
{
    match content {
        None => false,
        Some(s) => {
            let chars = text::chars_of(s.as_str());
            let lines = text::lines_of(chars.as_slice());
            let wanted = text::chars_of(needle);
            let ghost all = text::lines(s@);
            let mut i: usize = 0;
            while i < lines.len()
                invariant
                    i <= lines@.len(),
                    text::texts(lines@) == all,
                    all == text::lines(s@),
                    *content matches Some(t) && t == s,
                    wanted@ == needle@,
                    forall|j: int| 0 <= j < i ==> !occurs(#[trigger] all[j], needle@),
                decreases lines@.len() - i,
            {
                assert(all[i as int] == lines@[i as int]@);
                if line_mentions(lines[i], wanted.as_slice()) {
                    assert(occurs(text::lines(s@)[i as int], needle@));
                    return true;
                }
                i = i + 1;
            }
            false
        },
    }
}

fn level_of(seen: bool, otherwise: SupportLevel) -> (r: SupportLevel)
    ensures
        r == level(seen, otherwise),
{
    if seen {
        SupportLevel::Available
    } else {
        otherwise
    }
}

impl PlatformCapabilities {
    /// What the evidence shows.
    ///
    /// `Unknown` deliberately means "not proven by this cheap probe", not
    /// "unsupported". In particular, nftables TPROXY may be available without
    /// the legacy iptables target being listed in `/proc/net/ip_tables_targets`.
    pub fn probe(platform: PlatformKind, evidence: &PlatformEvidence) -> (r: PlatformCapabilities)
        ensures
            r == capabilities_of(platform, *evidence),
    {
        if platform == PlatformKind::Other {
            return PlatformCapabilities {
                platform,
                tun: SupportLevel::Unknown,
                tproxy: SupportLevel::Unknown,
                ebpf: SupportLevel::Unknown,
                btf: SupportLevel::Unknown,
                bpffs: SupportLevel::Unknown,
            };
        }
        let tproxy = file_contains(&evidence.ip_tables_targets, "TPROXY") || file_contains(
            &evidence.modules,
            "xt_TPROXY",
        );
        PlatformCapabilities {
            platform,
            tun: level_of(evidence.tun_device, SupportLevel::Unavailable),
            tproxy: level_of(tproxy, SupportLevel::Unknown),
            ebpf: level_of(
                evidence.btf_image || evidence.bpf_file_system || evidence.bpf_setting,
                SupportLevel::Unknown,
            ),
            btf: level_of(evidence.btf_image, SupportLevel::Unavailable),
            bpffs: level_of(evidence.bpf_file_system, SupportLevel::Unavailable),
        }
    }

    /// The capabilities in words, one to a line.
    pub fn report(&self) -> (r: String)
        ensures
            r@ == report_of(*self),
    {
        let mut out = text::join3("platform: ", self.platform.word(), "\ntun: ");
        out.append(self.tun.word());
        out.append("\ntproxy: ");
        out.append(self.tproxy.word());
        out.append("\nebpf: ");
        out.append(self.ebpf.word());
        out.append("\nbtf: ");
        out.append(self.btf.word());
        out.append("\nbpffs: ");
        out.append(self.bpffs.word());
        out.append("\n");
        out
    }
}

pub open spec fn report_of(c: PlatformCapabilities) -> Seq<char> {
    "platform: "@ + c.platform.spec_word() + "\ntun: "@ + c.tun.spec_word() + "\ntproxy: "@
        + c.tproxy.spec_word() + "\nebpf: "@ + c.ebpf.spec_word() + "\nbtf: "@
        + c.btf.spec_word() + "\nbpffs: "@ + c.bpffs.spec_word() + "\n"@
}

#[derive(Clone, Copy, Debug, PartialEq, Eq, Structural)]
pub enum InterceptionMode {
    ExplicitProxy,
    Tun,
    Tproxy,
    Ebpf,
}

#[derive(Clone, Copy, Debug, PartialEq, Eq, Structural)]
pub struct InterceptionRequest {
    pub mode: InterceptionMode,
}

/// A mode that the platform is not known to support.
#[derive(Clone, Copy, Debug, PartialEq, Eq, Structural)]
pub struct CapabilityError {
    mode: InterceptionMode,
    support: SupportLevel,
}

impl CapabilityError {
    pub closed spec fn spec_mode(&self) -> InterceptionMode {
        self.mode
    }

    pub closed spec fn spec_support(&self) -> SupportLevel {
        self.support
    }

    pub fn mode(&self) -> (r: InterceptionMode)
        ensures
            r == self.spec_mode(),
    {
        self.mode
    }

    pub fn support(&self) -> (r: SupportLevel)
        ensures
            r == self.spec_support(),
    {
        self.support
    }

    /// The message.
    pub fn text(&self) -> (r: String)
        ensures
            r@ == "requested interception mode "@ + mode_name(self.spec_mode())
                + " has support level "@ + level_name(self.spec_support()),
    {
        let mode = match self.mode {
            InterceptionMode::ExplicitProxy => "ExplicitProxy",
            InterceptionMode::Tun => "Tun",
            InterceptionMode::Tproxy => "Tproxy",
            InterceptionMode::Ebpf => "Ebpf",
        };
        let support = match self.support {
            SupportLevel::Available => "Available",
            SupportLevel::Unavailable => "Unavailable",
            SupportLevel::Unknown => "Unknown",
        };
        let mut out = text::join3("requested interception mode ", mode, " has support level ");
        out.append(support);
        out
    }
}

pub open spec fn mode_name(mode: InterceptionMode) -> Seq<char> {
    match mode {
        InterceptionMode::ExplicitProxy => "ExplicitProxy"@,
        InterceptionMode::Tun => "Tun"@,
        InterceptionMode::Tproxy => "Tproxy"@,
        InterceptionMode::Ebpf => "Ebpf"@,
    }
}

pub open spec fn level_name(support: SupportLevel) -> Seq<char> {
    match support {
        SupportLevel::Available => "Available"@,
        SupportLevel::Unavailable => "Unavailable"@,
        SupportLevel::Unknown => "Unknown"@,
    }
}

/// How well a mode is supported; an explicit proxy needs nothing of the platform.
pub open spec fn support_for(c: PlatformCapabilities, mode: InterceptionMode) -> SupportLevel {
    match mode {
        InterceptionMode::ExplicitProxy => SupportLevel::Available,
        InterceptionMode::Tun => c.tun,
        InterceptionMode::Tproxy => c.tproxy,
        InterceptionMode::Ebpf => c.ebpf,
    }
}

/// Something that knows what its platform can do.
pub trait NetworkBackend {
    spec fn spec_capabilities(&self) -> PlatformCapabilities;

    fn capabilities(&self) -> (r: &PlatformCapabilities)
        ensures
            *r == self.spec_capabilities(),
    ;

    /// Lets a request through whose mode is available; one that is not known to
    /// be is not taken to be.
    fn validate(&self, request: &InterceptionRequest) -> (r: Result<(), CapabilityError>)
        ensures
            match r {
                Ok(_) => support_for(self.spec_capabilities(), request.mode)
                    == SupportLevel::Available,
                Err(e) => {
                    &&& e.spec_support() != SupportLevel::Available
                    &&& e.spec_support() == support_for(self.spec_capabilities(), request.mode)
                    &&& e.spec_mode() == request.mode
                },
            },
    {
        let support = match request.mode {
            InterceptionMode::ExplicitProxy => SupportLevel::Available,
            InterceptionMode::Tun => self.capabilities().tun,
            InterceptionMode::Tproxy => self.capabilities().tproxy,
            InterceptionMode::Ebpf => self.capabilities().ebpf,
        };
        if support.is_available() {
            Ok(())
        } else {
            Err(CapabilityError { mode: request.mode, support })
        }
    }
}

/// A backend with capabilities that were found once.
#[derive(Clone, Copy, Debug, PartialEq, Eq, Structural)]
pub struct ProbedBackend {
    capabilities: PlatformCapabilities,
}

impl ProbedBackend {
    pub fn current(platform: PlatformKind, evidence: &PlatformEvidence) -> (r: ProbedBackend)
        ensures
            r.spec_capabilities() == capabilities_of(platform, *evidence),
    {
        ProbedBackend { capabilities: PlatformCapabilities::probe(platform, evidence) }
    }

    pub fn from_capabilities(capabilities: PlatformCapabilities) -> (r: ProbedBackend)
        ensures
            r.spec_capabilities() == capabilities,
    {
        ProbedBackend { capabilities }
    }
}

impl NetworkBackend for ProbedBackend {
    closed spec fn spec_capabilities(&self) -> PlatformCapabilities {
        self.capabilities
    }

    fn capabilities(&self) -> (r: &PlatformCapabilities) {
        &self.capabilities
    }
}

/// An explicit proxy is supported on every platform.
pub proof fn law_explicit_proxy_is_always_supported(c: PlatformCapabilities)
    ensures
        support_for(c, InterceptionMode::ExplicitProxy) == SupportLevel::Available,
{
}

/// A feature counts as available only where some evidence shows it: without any,
/// interception is never available.
pub proof fn law_nothing_is_available_without_evidence(platform: PlatformKind, e: PlatformEvidence)
    requires
        !e.tun_device,
        !e.btf_image,
        !e.bpf_file_system,
        !e.bpf_setting,
        e.ip_tables_targets is None,
        e.modules is None,
    ensures
        support_for(capabilities_of(platform, e), InterceptionMode::Tun)
            != SupportLevel::Available,
        support_for(capabilities_of(platform, e), InterceptionMode::Tproxy)
            != SupportLevel::Available,
        support_for(capabilities_of(platform, e), InterceptionMode::Ebpf)
            != SupportLevel::Available,
{
}

/// On Linux and Android a feature is available exactly when there is evidence of it. Without
/// it a device, a BTF image and a BPF file system are unavailable, and what no file can rule
/// out is unknown. Elsewhere nothing is known.
pub proof fn law_evidence_makes_features_available(platform: PlatformKind, e: PlatformEvidence)
    ensures
        ({
            let c = capabilities_of(platform, e);
            let known = platform is Linux || platform is Android;
            let tproxy = mentions(e.ip_tables_targets, "TPROXY"@) || mentions(
                e.modules,
                "xt_TPROXY"@,
            );
            let ebpf = e.btf_image || e.bpf_file_system || e.bpf_setting;
            &&& c.platform == platform
            &&& c.tun is Available <==> known && e.tun_device
            &&& c.tun is Unavailable <==> known && !e.tun_device
            &&& c.tproxy is Available <==> known && tproxy
            &&& c.tproxy is Unknown <==> !known || !tproxy
            &&& c.ebpf is Available <==> known && ebpf
            &&& c.ebpf is Unknown <==> !known || !ebpf
            &&& c.btf is Available <==> known && e.btf_image
            &&& c.btf is Unavailable <==> known && !e.btf_image
            &&& c.bpffs is Available <==> known && e.bpf_file_system
            &&& c.bpffs is Unavailable <==> known && !e.bpf_file_system
        }),
{
}

/// A file mentions a word when the word stands in one of its lines, wherever in the line.
pub proof fn law_words_are_found_anywhere_in_a_line(
    before: Seq<char>,
    needle: Seq<char>,
    after: Seq<char>,
)
    ensures
        occurs(before + needle + after, needle),
{
    let line = before + needle + after;
    let n = before.len() as int;
    assert(line.subrange(n, n + needle.len()) =~= needle);
}

/// Each mode of interception asks for its own feature, and an explicit proxy for none.
pub proof fn law_modes_ask_for_their_feature(c: PlatformCapabilities)
    ensures
        support_for(c, InterceptionMode::Tun) == c.tun,
        support_for(c, InterceptionMode::Tproxy) == c.tproxy,
        support_for(c, InterceptionMode::Ebpf) == c.ebpf,
        support_for(c, InterceptionMode::ExplicitProxy) is Available,
{
}

/// The platform is told by the name of the operating system, and known by that name again.
pub proof fn law_platform_is_known_by_its_name(os: Seq<char>)
    ensures
        platform_of(os) is Android <==> os == "android"@,
        platform_of(os) is Linux <==> os == "linux"@,
        !(platform_of(os) is Other) ==> platform_of(os).spec_word() == os,
        platform_of(os) is Other ==> platform_of(os).spec_word() == "other"@,
{
    reveal_strlit("android");
    reveal_strlit("linux");
    assert("android"@[0] == 'a' && "linux"@[0] == 'l');
}

/// A request is let through exactly when its mode is available, and refused with the mode and
/// what is known of it.
pub proof fn law_only_available_modes_are_let_through(
    backend: &ProbedBackend,
    request: &InterceptionRequest,
    r: Result<(), CapabilityError>,
)
    requires
        call_ensures(ProbedBackend::validate, (backend, request), r),
    ensures
        r is Ok <==> support_for(backend.spec_capabilities(), request.mode) is Available,
        r matches Err(e) ==> e.spec_mode() == request.mode && e.spec_support() == support_for(
            backend.spec_capabilities(),
            request.mode,
        ),
{
}

} // verus!
