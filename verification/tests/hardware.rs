use insysin_lib::models::hardware::{DiskUsage, NetworkUsage};
use insysin_lib::services::hardware_service::{
    agrupar_processos, classificar_nucleos, detect_core_layout, physical_core_count, detect_macos_gpu, eh_zona_de_cpu, somar_discos,
    somar_redes, tem_hyperthreading, ultimo_cpu_presente, AmostraDisco, AmostraProcesso, EntradaGpu,
    GpuEscolhida, PROCESS_LIMIT,
};

fn amostra(pid: u32, name: &str, memory: u64) -> AmostraProcesso {
    AmostraProcesso { pid, name: name.to_string(), memory }
}

#[test]
fn processos_agrupados_por_nome() {
    let s = vec![amostra(1, "a", 10), amostra(2, "b", 50), amostra(3, "a", 30), amostra(4, "c", 5)];
    let r = agrupar_processos(&s);
    assert_eq!(r.len(), 3);
    assert_eq!((r[0].name.as_str(), r[0].pid, r[0].memory_usage), ("b", 2, 50));
    assert_eq!(r[0].membros, vec![1]);
    assert_eq!((r[1].name.as_str(), r[1].pid, r[1].memory_usage), ("a", 1, 30));
    assert_eq!(r[1].membros, vec![0, 2]);
    assert_eq!((r[2].name.as_str(), r[2].pid, r[2].memory_usage), ("c", 4, 5));
}

#[test]
fn processos_so_os_quinze_maiores() {
    let s: Vec<AmostraProcesso> = (0..40u32).map(|i| amostra(100 + i, &format!("p{}", i), (i as u64) * 1000)).collect();
    let r = agrupar_processos(&s);
    assert_eq!(PROCESS_LIMIT, 15);
    assert_eq!(r.len(), 15);
    for (k, g) in r.iter().enumerate() {
        assert_eq!(g.memory_usage, (39 - k as u64) * 1000);
        assert_eq!(g.name, format!("p{}", 39 - k));
    }
    assert!(agrupar_processos(&vec![]).is_empty());
}

#[test]
fn nucleos_por_posicao() {
    let r = classificar_nucleos(6, 2, 3, 4);
    let kinds: Vec<&str> = r.iter().map(|c| c.kind.as_str()).collect();
    assert_eq!(kinds, vec!["performance", "performance", "efficiency", "efficiency", "efficiency", "unknown"]);
    let fisicos: Vec<bool> = r.iter().map(|c| c.physical).collect();
    assert_eq!(fisicos, vec![true, true, true, true, false, false]);
}

#[test]
fn layout_de_nucleos() {
    let nomes: Vec<String> = vec!["cpu0 PMP".into(), "cpu1 pmp".into(), "cpu2 EMP".into(), "cpu3".into()];
    assert_eq!(detect_core_layout(Some(4), Some(6), &nomes), (4, 6));
    assert_eq!(detect_core_layout(None, Some(6), &nomes), (2, 1));
    let simples: Vec<String> = vec!["cpu0".into(), "cpu1".into()];
    assert_eq!(detect_core_layout(None, None, &simples), (2, 0));
}

#[test]
fn cpus_presentes_e_zonas() {
    assert_eq!(ultimo_cpu_presente("0-7\n"), Some(7));
    assert_eq!(ultimo_cpu_presente("0"), Some(0));
    assert_eq!(ultimo_cpu_presente(""), None);
    assert!(eh_zona_de_cpu("x86_pkg_temp\n"));
    assert!(eh_zona_de_cpu("acpitz"));
    assert!(eh_zona_de_cpu("  CPU-therm "));
    assert!(!eh_zona_de_cpu("gpu-thermal"));
    assert!(tem_hyperthreading(16, 8));
    assert!(!tem_hyperthreading(8, 8));
}

#[test]
fn somas_de_discos_e_redes() {
    let d = vec![
        AmostraDisco { read_bytes: 1, written_bytes: 2, total_space: 100, available_space: 40 },
        AmostraDisco { read_bytes: 10, written_bytes: 20, total_space: 1000, available_space: 400 },
    ];
    assert_eq!(
        somar_discos(&d),
        DiskUsage { read_bytes: 11, write_bytes: 22, total_bytes: 1100, available_bytes: 440 }
    );
    assert_eq!(somar_redes(&vec![(5, 6), (7, 8)]), NetworkUsage { received_bytes: 12, transmitted_bytes: 14 });
    assert_eq!(somar_redes(&vec![]), NetworkUsage { received_bytes: 0, transmitted_bytes: 0 });
}

#[test]
fn gpu_primeira_com_modelo() {
    let e = vec![
        EntradaGpu { bus: None, model: Some("".into()), vendor: None, cores: None },
        EntradaGpu {
            bus: Some("spdisplays_builtin".into()),
            model: Some("Apple M2".into()),
            vendor: Some("sppci_vendor_Apple".into()),
            cores: Some("10".into()),
        },
        EntradaGpu { bus: None, model: Some("Other".into()), vendor: None, cores: None },
    ];
    assert_eq!(
        detect_macos_gpu(&e),
        Some(GpuEscolhida { model: "Apple M2".into(), vendor: "sppci_vendor_Apple".into(), integrated: true, cores: 10 })
    );
    let f = vec![EntradaGpu { bus: Some("pcie".into()), model: Some("Radeon".into()), vendor: None, cores: Some("x".into()) }];
    assert_eq!(
        detect_macos_gpu(&f),
        Some(GpuEscolhida { model: "Radeon".into(), vendor: "".into(), integrated: false, cores: 0 })
    );
    assert_eq!(detect_macos_gpu(&vec![]), None);
}

#[test]
fn contagem_de_nucleos_fisicos_e_logicos() {
    assert_eq!(physical_core_count(Some(8), Some(16), 4, Some("0-3")), (8, 16));
    assert_eq!(physical_core_count(None, Some(16), 4, Some("0-11\n")), (4, 12));
    assert_eq!(physical_core_count(None, None, 4, Some("garbage")), (4, 4));
    assert_eq!(physical_core_count(Some(8), None, 6, None), (6, 6));
}
