use insearch::renderer::{
    apply, default_backend, describe, parse, relaunch_args, retry_with_glow, select_adapter, Backend, DeviceKind,
    GraphicsApi, RenderState,
};

fn platform_default() -> Backend {
    default_backend(false)
}

#[test]
fn root_is_first_non_flag_and_renderer_value_is_not_a_root() {
    let a = parse(vec!["--renderer".into(), "glow".into(), "C:\\logs".into()], None, None, platform_default());
    assert_eq!(a.renderer.backend, Backend::Glow);
    assert!(a.renderer.explicit);
    assert_eq!(a.root.as_deref(), Some("C:\\logs"));
    assert_eq!(a.passthrough, vec!["C:\\logs".to_string()]);
}

#[test]
fn equals_form_and_env_override() {
    let a = parse(vec!["--renderer=wgpu".into()], Some("glow".into()), None, platform_default());
    assert_eq!(a.renderer.backend, Backend::Wgpu, "flag beats env");
    let b = parse(vec![], Some("glow".into()), None, platform_default());
    assert_eq!(b.renderer.backend, Backend::Glow);
    assert!(b.renderer.explicit);
}

#[test]
fn software_gpu_implies_wgpu_unless_glow_requested() {
    let a = parse(vec!["--software-gpu".into()], None, None, platform_default());
    assert_eq!(a.renderer.backend, Backend::Wgpu);
    assert!(a.renderer.software);
    assert!(!a.renderer.explicit);
    let b = parse(vec!["--software-gpu".into(), "--renderer".into(), "glow".into()], None, None, platform_default());
    assert_eq!(b.renderer.backend, Backend::Glow);
    assert!(!b.renderer.software);
}

#[test]
fn unknown_renderer_falls_back_to_platform_default() {
    let a = parse(vec!["--renderer".into(), "bogus".into()], None, None, platform_default());
    assert_eq!(a.renderer.backend, platform_default());
    assert!(!a.renderer.explicit);
    assert!(a.root.is_none());
}

#[test]
fn environment_software_flag_and_names() {
    let a = parse(vec![], None, Some(" YES ".into()), Backend::Glow);
    assert_eq!(a.renderer.backend, Backend::Wgpu);
    assert!(a.renderer.software);
    let b = parse(vec![], None, Some("off".into()), Backend::Glow);
    assert!(!b.renderer.software);
    assert_eq!(Backend::parse(" DX12 "), Some(Backend::Wgpu));
    assert_eq!(Backend::parse("OpenGL"), Some(Backend::Glow));
    assert_eq!(Backend::Glow.name(), "glow");
}

#[test]
fn wgpu_needs_the_windows_build_and_glow_retry_is_for_defaults_only() {
    let a = parse(vec![], None, None, Backend::Wgpu);
    assert!(apply(&a.renderer, true).is_ok());
    assert_eq!(
        apply(&a.renderer, false),
        Err("the wgpu renderer is only built into the Windows binary; use --renderer glow".to_string())
    );
    assert!(retry_with_glow(&a.renderer));
    let b = parse(vec!["--renderer".into(), "wgpu".into(), "x".into()], None, None, Backend::Wgpu);
    assert!(!retry_with_glow(&b.renderer));
    assert_eq!(
        relaunch_args(&b.passthrough),
        vec!["--renderer".to_string(), "glow".to_string(), "x".to_string()]
    );
}

#[test]
fn adapter_choice_prefers_gpus_and_software_when_asked() {
    let kinds = [DeviceKind::Cpu, DeviceKind::IntegratedGpu, DeviceKind::DiscreteGpu, DeviceKind::DiscreteGpu];
    let usable = [true, true, true, true];
    assert_eq!(select_adapter(&kinds, &usable, false), Some(2));
    assert_eq!(select_adapter(&kinds, &usable, true), Some(0));
    assert_eq!(select_adapter(&kinds, &[true, true, false, false], false), Some(1));
    assert_eq!(select_adapter(&[DeviceKind::IntegratedGpu], &[true], true), Some(0));
    assert_eq!(select_adapter(&kinds, &[false; 4], false), None);
}

#[test]
fn description_names_interface_and_software() {
    assert_eq!(
        describe(&RenderState::Wgpu(GraphicsApi::Dx12, true, "Microsoft Basic Render Driver".into())),
        "DirectX 12 · Microsoft Basic Render Driver — software rendering, no GPU"
    );
    assert_eq!(describe(&RenderState::Wgpu(GraphicsApi::Vulkan, false, "GPU".into())), "Vulkan · GPU");
    assert_eq!(describe(&RenderState::Gl), "OpenGL (glow)");
    assert_eq!(describe(&RenderState::Unknown), "unknown");
}
