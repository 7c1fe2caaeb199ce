use insysin_lib::menu::evento_do_menu;
use insysin_lib::ws_bridge::{
    acao_da_mensagem, argumentos_agrupados, dispatch, endereco_de_escuta, erro_de_parse, Acao, Comando,
    TipoMensagem,
};

#[test]
fn ponte_comandos_conhecidos() {
    assert_eq!(dispatch("ler_hardware"), Ok(Comando::LerHardware));
    assert_eq!(dispatch("ler_rede"), Ok(Comando::LerRede));
    assert_eq!(dispatch("get_internet_info"), Ok(Comando::GetInternetInfo));
    assert_eq!(dispatch("run_speed_test"), Ok(Comando::RunSpeedTest));
    assert_eq!(dispatch("get_local_network_info"), Ok(Comando::GetLocalNetworkInfo));
    assert_eq!(dispatch("obter_historico"), Ok(Comando::ObterHistorico));
    assert_eq!(dispatch("obter_processos_agrupados"), Ok(Comando::ObterProcessosAgrupados));
}

#[test]
fn ponte_comando_desconhecido() {
    assert_eq!(dispatch("apagar_tudo"), Err("Unknown command: apagar_tudo".to_string()));
    assert_eq!(dispatch(""), Err("Unknown command: ".to_string()));
    assert_eq!(dispatch("LER_HARDWARE"), Err("Unknown command: LER_HARDWARE".to_string()));
}

#[test]
fn ponte_argumentos_padrao() {
    assert_eq!(argumentos_agrupados(None, None), ("cpu".to_string(), true));
    assert_eq!(argumentos_agrupados(Some("nome"), Some(false)), ("nome".to_string(), false));
}

#[test]
fn ponte_mensagens_e_endereco() {
    assert_eq!(erro_de_parse("expected value at line 1"), "Parse error: expected value at line 1");
    assert_eq!(acao_da_mensagem(TipoMensagem::Texto), Acao::Responder);
    assert_eq!(acao_da_mensagem(TipoMensagem::Fechar), Acao::Encerrar);
    assert_eq!(acao_da_mensagem(TipoMensagem::Outra), Acao::Ignorar);
    assert_eq!(endereco_de_escuta(9001), "0.0.0.0:9001");
    assert_eq!(endereco_de_escuta(0), "0.0.0.0:0");
}

#[test]
fn menu_eventos() {
    assert_eq!(evento_do_menu("theme_dark"), Some(("theme-changed", "dark")));
    assert_eq!(evento_do_menu("theme_light"), Some(("theme-changed", "light")));
    assert_eq!(evento_do_menu("navigate_network"), Some(("navigate", "/network")));
    assert_eq!(evento_do_menu("quit"), None);
}
