use vstd::prelude::*;

use crate::texto::str_igual;

verus! {

/// How many rows of system history are read back.
pub const LIMITE_SISTEMA: usize = 60;

/// How many rows of process history are read back.
pub const LIMITE_PROCESSOS: usize = 300;

/// The query for the latest system rows, newest first, with the row limit as its parameter.
pub const CONSULTA_SISTEMA: &'static str = "SELECT data_hora, cpu_global, ram_usada, COALESCE(ram_total, 0) FROM uso_sistema ORDER BY id DESC LIMIT ?1";

/// The query for the latest process rows, newest first, with the row limit as its parameter.
pub const CONSULTA_PROCESSOS: &'static str = "SELECT data_hora, nome, cpu, memoria FROM uso_processos ORDER BY id DESC LIMIT ?1";

/// The column that the grouped process list is sorted by, for the order the caller asked for:
/// `nome`, `data`, `cpu` and `memoria` each name one; anything else sorts by total memory.
pub open spec fn coluna(ordem: Seq<char>) -> Seq<char> {
    if ordem == "nome"@ {
        "nome"@
    } else if ordem == "data"@ {
        "ultima_data"@
    } else if ordem == "cpu"@ {
        "total_cpu"@
    } else {
        "total_memoria"@
    }
}

/// The columns that the grouped process list can be sorted by.
pub open spec fn colunas_permitidas() -> Set<Seq<char>> {
    set!["nome"@, "ultima_data"@, "total_cpu"@, "total_memoria"@]
}

/// The sort direction.
pub open spec fn direcao(desc: bool) -> Seq<char> {
    if desc {
        "DESC"@
    } else {
        "ASC"@
    }
}

/// The grouped query, up to the column it sorts by.
pub open spec fn inicio_consulta_agrupada() -> Seq<char> {
    "SELECT nome, MAX(data_hora) as ultima_data, SUM(cpu) as total_cpu, SUM(memoria) as total_memoria FROM uso_processos GROUP BY nome ORDER BY "@
}

/// The query that groups the process history by name (latest time, summed CPU and memory),
/// sorted by the column for `ordem`, in the direction `desc` gives.
pub open spec fn consulta_agrupada(ordem: Seq<char>, desc: bool) -> Seq<char> {
    inicio_consulta_agrupada() + coluna(ordem) + " "@ + direcao(desc)
}

/// The column to sort the grouped process list by.
pub fn coluna_ordenacao(ordem: &str) -> (r: &'static str)
    ensures
        r@ == coluna(ordem@),
{
    if str_igual(ordem, "nome") {
        "nome"
    } else if str_igual(ordem, "data") {
        "ultima_data"
    } else if str_igual(ordem, "cpu") {
        "total_cpu"
    } else {
        "total_memoria"
    }
}

/// The sort direction in SQL.
pub fn direcao_ordenacao(desc: bool) -> (r: &'static str)
    ensures
        r@ == direcao(desc),
{
    if desc {
        "DESC"
    } else {
        "ASC"
    }
}

/// The query for the grouped process list, sorted as asked.
pub fn listar_processos_agrupados(ordem: &str, desc: bool) -> (r: String)
    ensures
        r@ == consulta_agrupada(ordem@, desc),
{
    let mut q = "SELECT nome, MAX(data_hora) as ultima_data, SUM(cpu) as total_cpu, SUM(memoria) as total_memoria FROM uso_processos GROUP BY nome ORDER BY ".to_owned();
    q.append(coluna_ordenacao(ordem));
    q.append(" ");
    q.append(direcao_ordenacao(desc));
    q
}

/// Whatever the caller asks to sort by, the grouped query sorts by one of the four fixed
/// columns, in one of the two directions: nothing of the caller's text reaches the query.
pub proof fn lei_ordenacao_so_por_colunas_fixas(ordem: Seq<char>, desc: bool)
    ensures
        colunas_permitidas().contains(coluna(ordem)),
        direcao(desc) == "DESC"@ || direcao(desc) == "ASC"@,
{
}


/// Each of the four orders the caller can ask for sorts by its own column, and every other
/// request sorts by total memory: `nome` by name, `data` by the latest time, `cpu` by the summed
/// CPU, `memoria` (or anything else) by the summed memory.
pub proof fn lei_coluna_de_cada_ordem(ordem: Seq<char>)
    ensures
        coluna(ordem) == "nome"@ <==> ordem == "nome"@,
        coluna(ordem) == "ultima_data"@ <==> ordem == "data"@,
        coluna(ordem) == "total_cpu"@ <==> ordem == "cpu"@,
        coluna(ordem) == "total_memoria"@ <==> (ordem != "nome"@ && ordem != "data"@ && ordem != "cpu"@),
{
    reveal_strlit("nome");
    reveal_strlit("ultima_data");
    reveal_strlit("total_cpu");
    reveal_strlit("total_memoria");
    reveal_strlit("data");
    reveal_strlit("cpu");
    assert("nome"@.len() == 4 && "ultima_data"@.len() == 11 && "total_cpu"@.len() == 9 && "total_memoria"@.len() == 13);
    assert("data"@.len() == 4 && "cpu"@.len() == 3 && "nome"@[0] != "data"@[0]);
}

} // verus!
