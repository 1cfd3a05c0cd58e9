//! Renderer selection for the desktop front-end: which backend draws the
//! window, from command-line flags and environment overrides (a flag wins
//! over an environment variable).
use vstd::prelude::*;
use crate::strings::{is_empty_str, lower_char, str_eq, strip_prefix, to_ascii_lowercase, trim, trim_spec};
use crate::text::strip_prefix_ascii;

verus! {

/// Which backend to draw with.
#[derive(Clone, Copy, Debug, PartialEq, Eq, Structural)]
pub enum Backend {
    Glow,
    Wgpu,
}

/// `s` trimmed and ASCII-lowercased.
pub open spec fn folded(s: Seq<char>) -> Seq<char> {
    trim_spec(s).map_values(|c: char| lower_char(c))
}

/// The backend a renderer name selects: `glow`/`opengl`/`gl` or
/// `wgpu`/`dx12`/`directx`, ignoring surrounding whitespace and ASCII case.
pub open spec fn backend_spec(s: Seq<char>) -> Option<Backend> {
    let t = folded(s);
    if t == "glow"@ || t == "opengl"@ || t == "gl"@ {
        Some(Backend::Glow)
    } else if t == "wgpu"@ || t == "dx12"@ || t == "directx"@ {
        Some(Backend::Wgpu)
    } else {
        None
    }
}

impl Backend {
    /// Parses a renderer name.
    pub fn parse(s: &str) -> (r: Option<Backend>)
        ensures
            r == backend_spec(s@),
    {
        let t = to_ascii_lowercase(trim(s));
        let t = t.as_str();
        if str_eq(t, "glow") || str_eq(t, "opengl") || str_eq(t, "gl") {
            Some(Backend::Glow)
        } else if str_eq(t, "wgpu") || str_eq(t, "dx12") || str_eq(t, "directx") {
            Some(Backend::Wgpu)
        } else {
            None
        }
    }

    /// The backend's name.
    pub fn name(self) -> (r: &'static str)
        ensures
            r@ == (match self {
                Backend::Glow => "glow"@,
                Backend::Wgpu => "wgpu"@,
            }),
    {
        match self {
            Backend::Glow => "glow",
            Backend::Wgpu => "wgpu",
        }
    }
}

/// The renderer choice for this run.
#[derive(Clone, Copy, Debug)]
pub struct Choice {
    pub backend: Backend,
    /// The backend was chosen explicitly (flag or environment).
    pub explicit: bool,
    /// Prefer the software (CPU) adapter over any GPU.
    pub software: bool,
}

/// Parsed command line: renderer choice plus the optional initial root.
#[derive(Debug)]
pub struct Args {
    pub renderer: Choice,
    pub root: Option<String>,
    /// Non-renderer arguments, preserved verbatim for a fallback relaunch.
    pub passthrough: Vec<String>,
}

/// Whether an environment flag's value turns the flag on: set, and not
/// empty, `0`, `false`, `no` or `off` (trimmed, ignoring ASCII case).
pub open spec fn env_flag_spec(v: Option<Seq<char>>) -> bool {
    match v {
        Some(x) => {
            let t = folded(x);
            !(t.len() == 0 || t == "0"@ || t == "false"@ || t == "no"@ || t == "off"@)
        },
        None => false,
    }
}

/// Whether an environment flag's value turns the flag on.
pub fn env_flag(v: &Option<String>) -> (b: bool)
    ensures
        b == env_flag_spec(match v { Some(x) => Some(x@), None => None }),
{
    match v {
        Some(x) => {
            let t = to_ascii_lowercase(trim(x.as_str()));
            let t = t.as_str();
            !(is_empty_str(t) || str_eq(t, "0") || str_eq(t, "false") || str_eq(t, "no") || str_eq(t, "off"))
        },
        None => false,
    }
}

/// What scanning the arguments has gathered so far.
pub ghost struct ArgScan {
    pub backend: Option<Backend>,
    pub software: bool,
    pub root: Option<Seq<char>>,
    pub passthrough: Seq<Seq<char>>,
}

/// Scans `argv` from position `i`: `--renderer <v>` and `--renderer=<v>`
/// set the backend when `v` names one (and are otherwise ignored);
/// `--software-gpu` asks for software rendering; every other argument is kept
/// for a relaunch, and the first one not starting with `-` is the root.
pub open spec fn scan_spec(argv: Seq<Seq<char>>, i: int, st: ArgScan) -> ArgScan
    decreases argv.len() - i,
{
    if i < 0 || i >= argv.len() {
        st
    } else {
        let a = argv[i];
        if a == "--renderer"@ {
            if i + 1 < argv.len() {
                let b = backend_spec(argv[i + 1]);
                scan_spec(argv, i + 2, ArgScan { backend: if b is Some { b } else { st.backend }, ..st })
            } else {
                st
            }
        } else if "--renderer="@.len() <= a.len() && a.take("--renderer="@.len() as int) == "--renderer="@ {
            let b = backend_spec(a.skip("--renderer="@.len() as int));
            scan_spec(argv, i + 1, ArgScan { backend: if b is Some { b } else { st.backend }, ..st })
        } else if a == "--software-gpu"@ {
            scan_spec(argv, i + 1, ArgScan { software: true, ..st })
        } else {
            let root = if st.root is None && !(a.len() > 0 && a[0] == '-') { Some(a) } else { st.root };
            scan_spec(argv, i + 1, ArgScan { root: root, passthrough: st.passthrough.push(a), ..st })
        }
    }
}

/// The renderer choice from the scan: an explicit backend wins; otherwise
/// the platform default, except that software rendering implies `wgpu`;
/// software rendering is dropped with `glow`.
pub open spec fn choice_spec(st: ArgScan, platform_default: Backend) -> Choice {
    let explicit = st.backend is Some;
    let b0 = match st.backend { Some(b) => b, None => platform_default };
    let b = if st.software && !explicit { Backend::Wgpu } else { b0 };
    Choice { backend: b, explicit: explicit, software: st.software && b != Backend::Glow }
}

/// The views of a vector of strings.
pub open spec fn views(v: Seq<String>) -> Seq<Seq<char>> {
    v.map_values(|s: String| s@)
}

/// The backend an environment override selects.
pub open spec fn env_backend_spec(v: Option<Seq<char>>) -> Option<Backend> {
    match v {
        Some(x) => backend_spec(x),
        None => None,
    }
}

/// The view of an optional string.
pub open spec fn opt_view(v: Option<String>) -> Option<Seq<char>> {
    match v {
        Some(x) => Some(x@),
        None => None,
    }
}

/// Parses the front-end's arguments (`argv` without the program name), given
/// the values of the `INSEARCH_RENDERER` and `INSEARCH_SOFTWARE_GPU`
/// environment variables and the platform's default backend. A backend
/// named on the command line wins over the environment; an unknown name is
/// ignored.
pub fn parse(argv: Vec<String>, env_renderer: Option<String>, env_software: Option<String>, platform_default: Backend) -> (r: Args)
    ensures
        ({
            let st0 = ArgScan {
                backend: env_backend_spec(opt_view(env_renderer)),
                software: env_flag_spec(opt_view(env_software)),
                root: None,
                passthrough: seq![],
            };
            let st = scan_spec(views(argv@), 0, st0);
            &&& r.renderer == choice_spec(st, platform_default)
            &&& opt_view(r.root) == st.root
            &&& views(r.passthrough@) == st.passthrough
        }),
{
    let ghost av = views(argv@);
    let mut backend: Option<Backend> = match &env_renderer {
        Some(v) => Backend::parse(v.as_str()),
        None => None,
    };
    let mut software = env_flag(&env_software);
    let mut root: Option<String> = None;
    let mut passthrough: Vec<String> = Vec::new();
    let ghost st0 = ArgScan { backend: backend, software: software, root: None, passthrough: seq![] };
    assert(views(passthrough@) =~= Seq::<Seq<char>>::empty());
    let n = argv.len();
    let mut i: usize = 0;
    proof {
        reveal_strlit("--renderer");
        reveal_strlit("--renderer=");
        reveal_strlit("--software-gpu");
    }
    while i < n
        invariant
            n == argv.len(),
            av == views(argv@),
            i <= n,
            "--renderer="@.len() == 11,
            scan_spec(av, 0, st0) == scan_spec(av, i as int,
                ArgScan { backend: backend, software: software, root: opt_view(root), passthrough: views(passthrough@) }),
        decreases n - i,
    {
        let a = argv[i].as_str();
        assert(a@ == av[i as int]);
        let ghost cur = ArgScan { backend: backend, software: software, root: opt_view(root), passthrough: views(passthrough@) };
        if str_eq(a, "--renderer") {
            let b = if i + 1 < n { Backend::parse(argv[i + 1].as_str()) } else { None };
            if b.is_some() {
                backend = b;
            }
            i = if i + 1 < n { i + 2 } else { n };

        } else {
            match strip_prefix(a, "--renderer=") {
                Some(v) => {
                    let b = Backend::parse(v);
                    if b.is_some() {
                        backend = b;
                    }
                    i = i + 1;
                },
                None => {
                    if str_eq(a, "--software-gpu") {
                        software = true;
                    } else {
                        if root.is_none() && strip_prefix_ascii(a, '-', 45u8).is_none() {
                            root = Some(a.to_string());
                        }
                        let ghost before = passthrough@;
                        passthrough.push(a.to_string());
                        assert(views(passthrough@) =~= views(before).push(a@));
                    }
                    i = i + 1;
                },
            }
        }
    }
    let explicit = backend.is_some();
    let mut b = match backend {
        Some(b) => b,
        None => platform_default,
    };
    if software && !explicit {
        b = Backend::Wgpu;
    }
    if b == Backend::Glow && software {
        software = false;
    }
    Args { renderer: Choice { backend: b, explicit, software }, root, passthrough }
}


/// A backend named on the command line beats the environment: scanning the
/// same arguments from two states that differ only in the backend either
/// keeps each state's backend (no flag named one) or ends with the same
/// backend in both; everything else comes out the same.
pub proof fn law_flag_beats_env(argv: Seq<Seq<char>>, i: int, st: ArgScan, b1: Option<Backend>, b2: Option<Backend>)
    ensures
        ({
            let r1 = scan_spec(argv, i, ArgScan { backend: b1, ..st });
            let r2 = scan_spec(argv, i, ArgScan { backend: b2, ..st });
            &&& (r1.backend == b1 && r2.backend == b2) || r1.backend == r2.backend
            &&& r1.software == r2.software
            &&& r1.root == r2.root
            &&& r1.passthrough == r2.passthrough
        }),
    decreases argv.len() - i,
{
    if 0 <= i < argv.len() {
        let a = argv[i];
        if a == "--renderer"@ {
            if i + 1 < argv.len() {
                let b = backend_spec(argv[i + 1]);
                if b is Some {
                    law_flag_beats_env(argv, i + 2, st, b, b);
                } else {
                    law_flag_beats_env(argv, i + 2, st, b1, b2);
                }
            }
        } else if "--renderer="@.len() <= a.len() && a.take("--renderer="@.len() as int) == "--renderer="@ {
            let b = backend_spec(a.skip("--renderer="@.len() as int));
            if b is Some {
                law_flag_beats_env(argv, i + 1, st, b, b);
            } else {
                law_flag_beats_env(argv, i + 1, st, b1, b2);
            }
        } else if a == "--software-gpu"@ {
            law_flag_beats_env(argv, i + 1, ArgScan { software: true, ..st }, b1, b2);
        } else {
            let root = if st.root is None && !(a.len() > 0 && a[0] == '-') { Some(a) } else { st.root };
            law_flag_beats_env(argv, i + 1, ArgScan { root: root, passthrough: st.passthrough.push(a), ..st }, b1, b2);
        }
    }
}

/// Software rendering implies `wgpu` unless `glow` was asked for, and it never
/// survives alongside `glow`.
pub proof fn law_software_implies_wgpu(st: ArgScan, platform_default: Backend)
    ensures
        st.software && st.backend != Some(Backend::Glow) ==> choice_spec(st, platform_default).backend
            == Backend::Wgpu && choice_spec(st, platform_default).software,
        choice_spec(st, platform_default).backend == Backend::Glow ==> !choice_spec(st, platform_default).software,
{
}

/// The platform's default backend: `wgpu` on Windows, `glow` elsewhere.
pub fn default_backend(windows: bool) -> (b: Backend)
    ensures
        b == if windows { Backend::Wgpu } else { Backend::Glow },
{
    if windows { Backend::Wgpu } else { Backend::Glow }
}

/// Whether a build has the chosen backend: `glow` always, `wgpu` only in the
/// Windows build. Gives the backend to configure, or why it cannot be used.
pub fn apply(choice: &Choice, windows: bool) -> (r: Result<Backend, String>)
    ensures
        r is Ok <==> (choice.backend == Backend::Glow || windows),
        r matches Ok(b) ==> b == choice.backend,
        r matches Err(e) ==> e@ == "the wgpu renderer is only built into the Windows binary; use --renderer glow"@,
{
    match choice.backend {
        Backend::Glow => Ok(Backend::Glow),
        Backend::Wgpu => if windows {
            Ok(Backend::Wgpu)
        } else {
            Err("the wgpu renderer is only built into the Windows binary; use --renderer glow".to_string())
        },
    }
}

/// Whether a failed start deserves one more try with `glow`: only the
/// default `wgpu` choice does; an explicit choice is respected as it is.
pub fn retry_with_glow(choice: &Choice) -> (b: bool)
    ensures
        b == (choice.backend == Backend::Wgpu && !choice.explicit),
{
    choice.backend == Backend::Wgpu && !choice.explicit
}

/// The arguments of the `glow` relaunch: `--renderer glow`, then the
/// original non-renderer arguments.
pub fn relaunch_args(passthrough: &Vec<String>) -> (r: Vec<String>)
    ensures
        views(r@) == seq!["--renderer"@, "glow"@] + views(passthrough@),
{
    let mut r: Vec<String> = Vec::new();
    r.push("--renderer".to_string());
    r.push("glow".to_string());
    let ghost base = views(r@);
    for i in 0..passthrough.len()
        invariant
            base == seq!["--renderer"@, "glow"@],
            views(r@) == base + views(passthrough@).take(i as int),
    {
        let ghost before = r@;
        r.push(passthrough[i].clone());
        assert(views(r@) =~= views(before).push(passthrough@[i as int]@));
        assert(views(passthrough@).take(i + 1) =~= views(passthrough@).take(i as int).push(passthrough@[i as int]@));
        assert(views(r@) =~= base + views(passthrough@).take(i + 1));
    }
    assert(views(passthrough@).take(passthrough.len() as int) =~= views(passthrough@));
    r
}

/// The kinds of graphics adapter, as the graphics layer reports them.
#[derive(Clone, Copy, Debug, PartialEq, Eq, Structural)]
pub enum DeviceKind {
    DiscreteGpu,
    IntegratedGpu,
    VirtualGpu,
    Other,
    /// A software rasterizer.
    Cpu,
}

/// How much an adapter kind is preferred: lower is better.
pub open spec fn rank_spec(k: DeviceKind) -> u8 {
    match k {
        DeviceKind::DiscreteGpu => 0,
        DeviceKind::IntegratedGpu => 1,
        DeviceKind::VirtualGpu => 2,
        DeviceKind::Other => 3,
        DeviceKind::Cpu => 4,
    }
}

/// How much an adapter kind is preferred: lower is better.
pub fn rank(k: DeviceKind) -> (r: u8)
    ensures
        r == rank_spec(k),
{
    match k {
        DeviceKind::DiscreteGpu => 0,
        DeviceKind::IntegratedGpu => 1,
        DeviceKind::VirtualGpu => 2,
        DeviceKind::Other => 3,
        DeviceKind::Cpu => 4,
    }
}

/// The adapter to render on, by index, among adapters of the given kinds
/// where `usable` says which can present to the window: the first usable one
/// of the best rank, or, when software rendering is asked for, the first
/// usable software one if there is any. `None` when none is usable.
pub fn select_adapter(kinds: &[DeviceKind], usable: &[bool], software: bool) -> (r: Option<usize>)
    requires
        kinds@.len() == usable@.len(),
    ensures
        r is None <==> forall|i: int| 0 <= i < usable@.len() ==> !usable@[i],
        r matches Some(i) ==> {
            &&& i < kinds@.len()
            &&& usable@[i as int]
            &&& forall|j: int| 0 <= j < i && usable@[j] ==> rank_spec(kinds@[j]) > rank_spec(kinds@[i as int])
                || (software && kinds@[i as int] == DeviceKind::Cpu && kinds@[j] != DeviceKind::Cpu)
            &&& (software && kinds@[i as int] != DeviceKind::Cpu) ==> forall|j: int| 0 <= j < kinds@.len() && usable@[j]
                ==> kinds@[j] != DeviceKind::Cpu
            &&& (software && kinds@[i as int] == DeviceKind::Cpu) ==> forall|j: int| 0 <= j < i && usable@[j]
                ==> kinds@[j] != DeviceKind::Cpu
            &&& !(software && kinds@[i as int] == DeviceKind::Cpu) ==> forall|j: int| 0 <= j < kinds@.len() && usable@[j]
                ==> rank_spec(kinds@[j]) >= rank_spec(kinds@[i as int])
        },
{
    let mut cpu: Option<usize> = None;
    let mut best: Option<usize> = None;
    let mut i: usize = 0;
    while i < kinds.len()
        invariant
            kinds@.len() == usable@.len(),
            0 <= i <= kinds@.len(),
            cpu is None ==> forall|j: int| 0 <= j < i && usable@[j] ==> kinds@[j] != DeviceKind::Cpu,
            cpu matches Some(c) ==> c < i && usable@[c as int] && kinds@[c as int] == DeviceKind::Cpu
                && forall|j: int| 0 <= j < c && usable@[j] ==> kinds@[j] != DeviceKind::Cpu,
            best is None ==> forall|j: int| 0 <= j < i ==> !usable@[j],
            best matches Some(b) ==> b < i && usable@[b as int]
                && (forall|j: int| 0 <= j < i && usable@[j] ==> rank_spec(kinds@[j]) >= rank_spec(kinds@[b as int]))
                && (forall|j: int| 0 <= j < b && usable@[j] ==> rank_spec(kinds@[j]) > rank_spec(kinds@[b as int])),
        decreases kinds@.len() - i,
    {
        if usable[i] {
            if cpu.is_none() && kinds[i] == DeviceKind::Cpu {
                cpu = Some(i);
            }
            match best {
                None => best = Some(i),
                Some(b) => if rank(kinds[i]) < rank(kinds[b]) {
                    best = Some(i);
                },
            }
        }
        i = i + 1;
    }
    if software {
        match cpu {
            Some(c) => Some(c),
            None => best,
        }
    } else {
        best
    }
}

/// The graphics interface an adapter renders through.
#[derive(Clone, Copy, Debug, PartialEq, Eq, Structural)]
pub enum GraphicsApi {
    Dx12,
    Vulkan,
    Gl,
    Metal,
    BrowserWebGpu,
    Noop,
}

/// What the running window draws with.
pub enum RenderState {
    /// A `wgpu` adapter: its interface, whether it is a software one, its name.
    Wgpu(GraphicsApi, bool, String),
    /// The OpenGL (`glow`) backend.
    Gl,
    /// Neither could be determined.
    Unknown,
}

/// The display name of a graphics interface.
pub open spec fn api_name_spec(a: GraphicsApi) -> Seq<char> {
    match a {
        GraphicsApi::Dx12 => "DirectX 12"@,
        GraphicsApi::Vulkan => "Vulkan"@,
        GraphicsApi::Gl => "OpenGL"@,
        GraphicsApi::Metal => "Metal"@,
        GraphicsApi::BrowserWebGpu => "WebGPU"@,
        GraphicsApi::Noop => "no-op"@,
    }
}

/// A description of what the window draws with, for the About window:
/// `"<interface> · <adapter name>"`, marked as software rendering for a
/// software adapter; `"OpenGL (glow)"`; or `"unknown"`.
pub fn describe(state: &RenderState) -> (r: String)
    ensures
        r@ == match state {
            RenderState::Wgpu(api, cpu, name) => api_name_spec(*api) + " · "@ + name@
                + if *cpu { " — software rendering, no GPU"@ } else { ""@ },
            RenderState::Gl => "OpenGL (glow)"@,
            RenderState::Unknown => "unknown"@,
        },
{
    match state {
        RenderState::Wgpu(api, cpu, name) => {
            let mut r = String::new();
            match api {
                GraphicsApi::Dx12 => r.append("DirectX 12"),
                GraphicsApi::Vulkan => r.append("Vulkan"),
                GraphicsApi::Gl => r.append("OpenGL"),
                GraphicsApi::Metal => r.append("Metal"),
                GraphicsApi::BrowserWebGpu => r.append("WebGPU"),
                GraphicsApi::Noop => r.append("no-op"),
            }
            r.append(" · ");
            r.append(name.as_str());
            if *cpu {
                r.append(" — software rendering, no GPU");
            } else {
                r.append("");
            }
            r
        },
        RenderState::Gl => "OpenGL (glow)".to_string(),
        RenderState::Unknown => "unknown".to_string(),
    }
}

} // verus!
