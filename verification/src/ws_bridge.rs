use vstd::prelude::*;

use crate::texto::{decimal, escrever_decimal, str_igual};

verus! {

/// The commands that the WebSocket bridge answers.
#[derive(Debug, PartialEq, Eq)]
pub enum Comando {
    LerHardware,
    LerRede,
    GetInternetInfo,
    RunSpeedTest,
    GetLocalNetworkInfo,
    ObterHistorico,
    ObterProcessosAgrupados,
}

/// The command that a request names, if the bridge knows it.
pub open spec fn comando_de(nome: Seq<char>) -> Option<Comando> {
    if nome == "ler_hardware"@ {
        Some(Comando::LerHardware)
    } else if nome == "ler_rede"@ {
        Some(Comando::LerRede)
    } else if nome == "get_internet_info"@ {
        Some(Comando::GetInternetInfo)
    } else if nome == "run_speed_test"@ {
        Some(Comando::RunSpeedTest)
    } else if nome == "get_local_network_info"@ {
        Some(Comando::GetLocalNetworkInfo)
    } else if nome == "obter_historico"@ {
        Some(Comando::ObterHistorico)
    } else if nome == "obter_processos_agrupados"@ {
        Some(Comando::ObterProcessosAgrupados)
    } else {
        None
    }
}

/// The command that a request names; a name the bridge does not know is answered with
/// `Unknown command: ` and the name.
pub fn dispatch(command: &str) -> (r: Result<Comando, String>)
    ensures
        match r {
            Ok(c) => comando_de(command@) == Some(c),
            Err(e) => comando_de(command@) is None && e@ == "Unknown command: "@ + command@,
        },
{
    if str_igual(command, "ler_hardware") {
        Ok(Comando::LerHardware)
    } else if str_igual(command, "ler_rede") {
        Ok(Comando::LerRede)
    } else if str_igual(command, "get_internet_info") {
        Ok(Comando::GetInternetInfo)
    } else if str_igual(command, "run_speed_test") {
        Ok(Comando::RunSpeedTest)
    } else if str_igual(command, "get_local_network_info") {
        Ok(Comando::GetLocalNetworkInfo)
    } else if str_igual(command, "obter_historico") {
        Ok(Comando::ObterHistorico)
    } else if str_igual(command, "obter_processos_agrupados") {
        Ok(Comando::ObterProcessosAgrupados)
    } else {
        let mut e = "Unknown command: ".to_owned();
        e.append(command);
        Err(e)
    }
}

/// The arguments of the grouped process list, with their defaults: sort by `cpu`, descending.
pub fn argumentos_agrupados(ordem: Option<&str>, desc: Option<bool>) -> (r: (String, bool))
    ensures
        r.0@ == (match ordem {
            Some(o) => o@,
            None => "cpu"@,
        }),
        r.1 == (match desc {
            Some(d) => d,
            None => true,
        }),
{
    let o = match ordem {
        Some(o) => o.to_owned(),
        None => "cpu".to_owned(),
    };
    let d = match desc {
        Some(d) => d,
        None => true,
    };
    (o, d)
}

/// The error that answers a request that is not valid JSON.
pub fn erro_de_parse(detalhe: &str) -> (r: String)
    ensures
        r@ == "Parse error: "@ + detalhe@,
{
    let mut e = "Parse error: ".to_owned();
    e.append(detalhe);
    e
}

/// The kinds of WebSocket message that the bridge tells apart.
#[derive(Debug, PartialEq, Eq)]
pub enum TipoMensagem {
    Texto,
    Fechar,
    Outra,
}

/// What the bridge does with a message.
#[derive(Debug, PartialEq, Eq)]
pub enum Acao {
    Responder,
    Encerrar,
    Ignorar,
}

/// A text message is a request and is answered; a close message ends the connection; any other
/// message is ignored.
pub fn acao_da_mensagem(tipo: TipoMensagem) -> (r: Acao)
    ensures
        r == (match tipo {
            TipoMensagem::Texto => Acao::Responder,
            TipoMensagem::Fechar => Acao::Encerrar,
            TipoMensagem::Outra => Acao::Ignorar,
        }),
{
    match tipo {
        TipoMensagem::Texto => Acao::Responder,
        TipoMensagem::Fechar => Acao::Encerrar,
        TipoMensagem::Outra => Acao::Ignorar,
    }
}

/// The address the bridge listens on: every interface, at `port`.
pub fn endereco_de_escuta(port: u16) -> (r: String)
    ensures
        r@ == "0.0.0.0:"@ + decimal(port as nat),
{
    let mut a = "0.0.0.0:".to_owned();
    escrever_decimal(port as u64, &mut a);
    a
}


/// Each command is reached by its own name and by no other, and every other name is unknown.
pub proof fn lei_cada_comando_pelo_seu_nome(nome: Seq<char>)
    ensures
        comando_de(nome) == Some(Comando::LerHardware) <==> nome == "ler_hardware"@,
        comando_de(nome) == Some(Comando::LerRede) <==> nome == "ler_rede"@,
        comando_de(nome) == Some(Comando::GetInternetInfo) <==> nome == "get_internet_info"@,
        comando_de(nome) == Some(Comando::RunSpeedTest) <==> nome == "run_speed_test"@,
        comando_de(nome) == Some(Comando::GetLocalNetworkInfo) <==> nome == "get_local_network_info"@,
        comando_de(nome) == Some(Comando::ObterHistorico) <==> nome == "obter_historico"@,
        comando_de(nome) == Some(Comando::ObterProcessosAgrupados) <==> nome == "obter_processos_agrupados"@,
        comando_de(nome) is None <==> (nome != "ler_hardware"@ && nome != "ler_rede"@ && nome != "get_internet_info"@ && nome != "run_speed_test"@ && nome != "get_local_network_info"@ && nome != "obter_historico"@ && nome != "obter_processos_agrupados"@),
{
    reveal_strlit("ler_hardware");
    assert("ler_hardware"@.len() == 12);
    reveal_strlit("ler_rede");
    assert("ler_rede"@.len() == 8);
    reveal_strlit("get_internet_info");
    assert("get_internet_info"@.len() == 17);
    reveal_strlit("run_speed_test");
    assert("run_speed_test"@.len() == 14);
    reveal_strlit("get_local_network_info");
    assert("get_local_network_info"@.len() == 22);
    reveal_strlit("obter_historico");
    assert("obter_historico"@.len() == 15);
    reveal_strlit("obter_processos_agrupados");
    assert("obter_processos_agrupados"@.len() == 25);
    assert("ler_hardware"@[0] != "ler_rede"@[0] || "ler_hardware"@[4] != "ler_rede"@[4]);
    assert("get_internet_info"@[4] != "run_speed_test"@[4] || "get_internet_info"@[0] != "run_speed_test"@[0]);
    assert("obter_historico"@[6] != "get_internet_info"@[6] || "obter_historico"@[0] != "get_internet_info"@[0]);
}

} // verus!
