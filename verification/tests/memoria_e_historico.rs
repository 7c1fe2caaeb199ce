use insysin_lib::deve_salvar_snapshot;
use insysin_lib::models::hardware::MemBreakdown;
use insysin_lib::services::history_service::{
    coluna_ordenacao, direcao_ordenacao, listar_processos_agrupados, CONSULTA_PROCESSOS, CONSULTA_SISTEMA,
    LIMITE_PROCESSOS, LIMITE_SISTEMA,
};
use insysin_lib::services::memory_service::{
    coletar_breakdown, ler_linha_vm_stat, ler_paginas_vm_stat, paginas_cabem, parse_vm_stat_val, CampoVmStat,
    PaginasVmStat,
};

const VM_STAT: &str = "Mach Virtual Memory Statistics: (page size of 16384 bytes)
Pages free:                               12345.
Pages active:                            400000.
Pages inactive:                          350000.
Pages speculative:                         5000.
Pages throttled:                              0.
Pages wired down:                        150000.
Pages purgeable:                          10000.
\"Translation faults\":                 123456789.
Pages copy-on-write:                    1234567.
Pages stored in compressor:              300000.
Pages occupied by compressor:            100000.
";

fn cs(s: &str) -> Vec<char> {
    s.chars().collect()
}

#[test]
fn vm_stat_linha_com_chave() {
    assert_eq!(parse_vm_stat_val(&cs("Pages active:   400000."), "Pages active:"), Some(400000));
    assert_eq!(parse_vm_stat_val(&cs("  Pages active: 1,234,567..  "), "Pages active:"), Some(1234567));
    assert_eq!(parse_vm_stat_val(&cs("Pages inactive: 5."), "Pages active:"), None);
    assert_eq!(parse_vm_stat_val(&cs("Pages active:"), "Pages active:"), None);
    assert_eq!(parse_vm_stat_val(&cs("Pages active: x12."), "Pages active:"), None);
}

#[test]
fn vm_stat_linha_por_campo() {
    assert_eq!(ler_linha_vm_stat(&cs("Pages wired down: 7.")), Some((CampoVmStat::Fixas, 7)));
    assert_eq!(ler_linha_vm_stat(&cs("Pages occupied by compressor: 9.")), Some((CampoVmStat::Comprimidas, 9)));
    assert_eq!(ler_linha_vm_stat(&cs("Pages purgeable: 3.")), Some((CampoVmStat::Purgaveis, 3)));
    assert_eq!(ler_linha_vm_stat(&cs("Pages stored in compressor: 9.")), None);
}

#[test]
fn vm_stat_paginas_de_exemplo() {
    let p = ler_paginas_vm_stat(VM_STAT).unwrap();
    assert_eq!(
        p,
        PaginasVmStat {
            tamanho_pagina: 16384,
            ativas: 400000,
            fixas: 150000,
            comprimidas: 100000,
            inativas: 350000,
            purgaveis: 10000,
        }
    );
    assert!(paginas_cabem(&p));
}

#[test]
fn vm_stat_breakdown_em_bytes() {
    let b = coletar_breakdown(Some(VM_STAT)).unwrap();
    assert_eq!(
        b,
        MemBreakdown {
            app_memory: 400000 * 16384,
            wired_memory: 150000 * 16384,
            compressed_memory: 100000 * 16384,
            cached_memory: (350000 + 10000) * 16384,
        }
    );
}

#[test]
fn vm_stat_sem_saida_ou_sem_pagina() {
    assert_eq!(coletar_breakdown(None), None);
    assert_eq!(coletar_breakdown(Some("")), None);
    assert_eq!(coletar_breakdown(Some("Pages active: 5.\n")), None);
    assert_eq!(ler_paginas_vm_stat("Mach Virtual Memory Statistics: (page size of lots bytes)\n"), None);
}

#[test]
fn vm_stat_ultima_linha_vence_e_faltas_valem_zero() {
    let s = "Stats: (page size of 4096 bytes)\nPages active: 1.\nPages active: 2.\n";
    let p = ler_paginas_vm_stat(s).unwrap();
    assert_eq!(p.ativas, 2);
    assert_eq!(p.fixas, 0);
    assert_eq!(coletar_breakdown(Some(s)).unwrap().app_memory, 8192);
}

#[test]
fn vm_stat_estouro_detectado() {
    let p = PaginasVmStat {
        tamanho_pagina: u64::MAX,
        ativas: 2,
        fixas: 0,
        comprimidas: 0,
        inativas: 0,
        purgaveis: 0,
    };
    assert!(!paginas_cabem(&p));
    let q = PaginasVmStat { ativas: 0, inativas: u64::MAX, purgaveis: 1, tamanho_pagina: 1, fixas: 0, comprimidas: 0 };
    assert!(!paginas_cabem(&q));
}

#[test]
fn historico_colunas_de_ordenacao() {
    assert_eq!(coluna_ordenacao("nome"), "nome");
    assert_eq!(coluna_ordenacao("data"), "ultima_data");
    assert_eq!(coluna_ordenacao("cpu"), "total_cpu");
    assert_eq!(coluna_ordenacao("memoria"), "total_memoria");
    assert_eq!(coluna_ordenacao("data_hora"), "total_memoria");
    assert_eq!(coluna_ordenacao("'; DROP TABLE--"), "total_memoria");
    assert_eq!(direcao_ordenacao(true), "DESC");
    assert_eq!(direcao_ordenacao(false), "ASC");
}

#[test]
fn historico_consulta_agrupada() {
    assert_eq!(
        listar_processos_agrupados("cpu", true),
        "SELECT nome, MAX(data_hora) as ultima_data, SUM(cpu) as total_cpu, SUM(memoria) as total_memoria FROM uso_processos GROUP BY nome ORDER BY total_cpu DESC"
    );
    let q = listar_processos_agrupados("nome; DELETE FROM uso_processos", false);
    assert!(q.ends_with("ORDER BY total_memoria ASC"));
    assert!(!q.contains("DELETE"));
}

#[test]
fn historico_limites_e_consultas() {
    assert_eq!(LIMITE_SISTEMA, 60);
    assert_eq!(LIMITE_PROCESSOS, 300);
    assert!(CONSULTA_SISTEMA.contains("FROM uso_sistema ORDER BY id DESC LIMIT ?1"));
    assert!(CONSULTA_PROCESSOS.contains("FROM uso_processos ORDER BY id DESC LIMIT ?1"));
}

#[test]
fn snapshot_a_cada_tres_minutos() {
    assert!(!deve_salvar_snapshot(0));
    assert!(!deve_salvar_snapshot(179));
    assert!(deve_salvar_snapshot(180));
    assert!(deve_salvar_snapshot(10_000));
}
