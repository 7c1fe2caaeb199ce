use vstd::prelude::*;

use crate::models::network::{ConnectionStats, NetConnection, ProcessConnection};
use crate::selecao::{eh_selecao_dos_maiores, selecionar_maiores};
use crate::texto::{
    caracteres, decimal, divide, dividir, escrever_decimal, lex_menor_igual, menor_igual, numero_ate, str_igual,
    analisar_u16, vistas, analisar_i32, apara, aparar, fatia, inteiro_entre, junta, juntar_com_espaco,
    linhas, palavras, primeira, primeira_ocorrencia, separar_linhas, separar_palavras, texto_de, ultima,
    ultima_posicao,
};
use crate::models::network::{ListeningService, NetworkDashboard, NetworkInterface, TrafficSummary};
use crate::texto::{eh_palavra, lemma_palavras_de_junta, eh_espaco, eh_primeira, eh_ultima, ocorre_em, apara_inicio, apara_fim, lemma_decimal_le, lemma_divide_junta, eh_digito, lemma_numero_do_decimal, numero_natural, lemma_inteiro_do_decimal, comeca_com, comeca_str, lemma_lex_total, lemma_lex_transitivo, minusculas, para_minusculas};

verus! {

/// How many connections of `s` satisfy `f`.
pub open spec fn quantas(s: Seq<NetConnection>, f: spec_fn(NetConnection) -> bool) -> nat
    decreases s.len(),
{
    if s.len() == 0 {
        0
    } else {
        quantas(s.drop_last(), f) + if f(s.last()) {
            1nat
        } else {
            0nat
        }
    }
}

pub proof fn lemma_quantas_limite(s: Seq<NetConnection>, f: spec_fn(NetConnection) -> bool)
    ensures
        quantas(s, f) <= s.len(),
    decreases s.len(),
{
    if s.len() > 0 {
        lemma_quantas_limite(s.drop_last(), f);
    }
}

pub open spec fn eh_tcp(c: NetConnection) -> bool {
    c.protocol@ == "TCP"@
}

pub open spec fn eh_udp(c: NetConnection) -> bool {
    c.protocol@ == "UDP"@
}

pub open spec fn no_estado(c: NetConnection, estado: Seq<char>) -> bool {
    c.state@ == estado
}

/// The counts of `c` by protocol and by state.
pub open spec fn estatisticas(c: Seq<NetConnection>) -> ConnectionStats {
    ConnectionStats {
        total: c.len() as usize,
        tcp: quantas(c, |x: NetConnection| eh_tcp(x)) as usize,
        udp: quantas(c, |x: NetConnection| eh_udp(x)) as usize,
        established: quantas(c, |x: NetConnection| no_estado(x, "ESTABLISHED"@)) as usize,
        listening: quantas(c, |x: NetConnection| no_estado(x, "LISTEN"@)) as usize,
        close_wait: quantas(c, |x: NetConnection| no_estado(x, "CLOSE_WAIT"@)) as usize,
        time_wait: quantas(c, |x: NetConnection| no_estado(x, "TIME_WAIT"@)) as usize,
    }
}

/// Counts the connections by protocol (`TCP`, `UDP`) and by state (`ESTABLISHED`, `LISTEN`,
/// `CLOSE_WAIT`, `TIME_WAIT`).
pub fn compute_stats(connections: &[NetConnection]) -> (stats: ConnectionStats)
    ensures
        stats == estatisticas(connections@),
        stats.total == connections@.len(),
        stats.tcp == quantas(connections@, |c: NetConnection| eh_tcp(c)),
        stats.udp == quantas(connections@, |c: NetConnection| eh_udp(c)),
        stats.established == quantas(connections@, |c: NetConnection| no_estado(c, "ESTABLISHED"@)),
        stats.listening == quantas(connections@, |c: NetConnection| no_estado(c, "LISTEN"@)),
        stats.close_wait == quantas(connections@, |c: NetConnection| no_estado(c, "CLOSE_WAIT"@)),
        stats.time_wait == quantas(connections@, |c: NetConnection| no_estado(c, "TIME_WAIT"@)),
{
    let mut stats = ConnectionStats {
        total: 0,
        tcp: 0,
        udp: 0,
        established: 0,
        listening: 0,
        close_wait: 0,
        time_wait: 0,
    };
    let mut i: usize = 0;
    while i < connections.len()
        invariant
            i <= connections@.len(),
            stats.total == i,
            stats.tcp == quantas(connections@.take(i as int), |c: NetConnection| eh_tcp(c)),
            stats.udp == quantas(connections@.take(i as int), |c: NetConnection| eh_udp(c)),
            stats.established == quantas(connections@.take(i as int), |c: NetConnection| no_estado(c, "ESTABLISHED"@)),
            stats.listening == quantas(connections@.take(i as int), |c: NetConnection| no_estado(c, "LISTEN"@)),
            stats.close_wait == quantas(connections@.take(i as int), |c: NetConnection| no_estado(c, "CLOSE_WAIT"@)),
            stats.time_wait == quantas(connections@.take(i as int), |c: NetConnection| no_estado(c, "TIME_WAIT"@)),
        decreases connections.len() - i,
    {
        let conn = &connections[i];
        let ghost t = connections@.take(i + 1);
        proof {
            assert(t.drop_last() == connections@.take(i as int));
            assert(t.last() == *conn);
            reveal_strlit("TCP");
            reveal_strlit("UDP");
            reveal_strlit("ESTABLISHED");
            reveal_strlit("LISTEN");
            reveal_strlit("CLOSE_WAIT");
            reveal_strlit("TIME_WAIT");
            assert("TCP"@[0] != "UDP"@[0]);
            assert("ESTABLISHED"@[0] != "LISTEN"@[0]);
            assert("ESTABLISHED"@.len() != "CLOSE_WAIT"@.len());
            assert("ESTABLISHED"@[0] != "TIME_WAIT"@[0]);
            assert("LISTEN"@[0] != "CLOSE_WAIT"@[0]);
            assert("LISTEN"@[0] != "TIME_WAIT"@[0]);
            assert("CLOSE_WAIT"@[0] != "TIME_WAIT"@[0]);
            lemma_quantas_limite(connections@.take(i as int), |c: NetConnection| eh_tcp(c));
            lemma_quantas_limite(connections@.take(i as int), |c: NetConnection| eh_udp(c));
            lemma_quantas_limite(connections@.take(i as int), |c: NetConnection| no_estado(c, "ESTABLISHED"@));
            lemma_quantas_limite(connections@.take(i as int), |c: NetConnection| no_estado(c, "LISTEN"@));
            lemma_quantas_limite(connections@.take(i as int), |c: NetConnection| no_estado(c, "CLOSE_WAIT"@));
            lemma_quantas_limite(connections@.take(i as int), |c: NetConnection| no_estado(c, "TIME_WAIT"@));
        }
        stats.total += 1;
        let protocolo = conn.protocol.as_str();
        if str_igual(protocolo, "TCP") {
            stats.tcp += 1;
        } else if str_igual(protocolo, "UDP") {
            stats.udp += 1;
        }
        let estado = conn.state.as_str();
        if str_igual(estado, "ESTABLISHED") {
            stats.established += 1;
        } else if str_igual(estado, "LISTEN") {
            stats.listening += 1;
        } else if str_igual(estado, "CLOSE_WAIT") {
            stats.close_wait += 1;
        } else if str_igual(estado, "TIME_WAIT") {
            stats.time_wait += 1;
        }
        i += 1;
    }
    proof { assert(connections@.take(connections@.len() as int) == connections@); }
    stats
}


pub proof fn lemma_quantas_passo(s: Seq<NetConnection>, k: int, f: spec_fn(NetConnection) -> bool)
    requires
        0 <= k < s.len(),
    ensures
        quantas(s.take(k + 1), f) == quantas(s.take(k), f) + if f(s[k]) {
            1nat
        } else {
            0nat
        },
{
    assert(s.take(k + 1).drop_last() == s.take(k));
    assert(s.take(k + 1).last() == s[k]);
}

pub open spec fn do_processo(c: NetConnection, nome: Seq<char>) -> bool {
    c.process_name@ == nome
}

/// The process names of `s`, each once, in the order of their first connection.
pub open spec fn nomes_distintos(s: Seq<NetConnection>) -> Seq<Seq<char>>
    decreases s.len(),
{
    if s.len() == 0 {
        seq![]
    } else {
        let p = nomes_distintos(s.drop_last());
        let n = s.last().process_name@;
        if p.contains(n) {
            p
        } else {
            p.push(n)
        }
    }
}

pub proof fn lemma_nomes_distintos(s: Seq<NetConnection>)
    ensures
        forall|i: int, j: int|
            0 <= i < j < nomes_distintos(s).len() ==> nomes_distintos(s)[i] != nomes_distintos(s)[j],
        nomes_distintos(s).len() <= s.len(),
    decreases s.len(),
{
    if s.len() > 0 {
        lemma_nomes_distintos(s.drop_last());
    }
}

pub proof fn lemma_nome_ausente(s: Seq<NetConnection>, n: Seq<char>)
    requires
        !nomes_distintos(s).contains(n),
    ensures
        quantas(s, |c: NetConnection| do_processo(c, n)) == 0,
        quantas(s, |c: NetConnection| do_processo(c, n) && eh_tcp(c)) == 0,
        quantas(s, |c: NetConnection| do_processo(c, n) && eh_udp(c)) == 0,
    decreases s.len(),
{
    if s.len() > 0 {
        let p = nomes_distintos(s.drop_last());
        let u = s.last().process_name@;
        if p.contains(n) {
            let k = choose|k: int| 0 <= k < p.len() && p[k] == n;
            if p.contains(u) {
            } else {
                assert(nomes_distintos(s)[k] == n);
            }
        }
        if p.contains(u) {
            let k = choose|k: int| 0 <= k < p.len() && p[k] == u;
            assert(nomes_distintos(s)[k] == u);
        } else {
            assert(nomes_distintos(s)[p.len() as int] == u);
        }
        lemma_nome_ausente(s.drop_last(), n);
    }
}

/// `r` lists the (at most ten) processes of `c` with the most connections, most first: each
/// process once, with how many connections it holds in all and how many of them are TCP and UDP;
/// every process left out holds no more connections than any process listed.
pub open spec fn eh_top_processos(c: Seq<NetConnection>, r: Seq<ProcessConnection>) -> bool {
    &&& r.len() == (if nomes_distintos(c).len() < 10 { nomes_distintos(c).len() } else { 10 })
    &&& forall|i: int|
        #![trigger r[i]]
        0 <= i < r.len() ==> {
            &&& nomes_distintos(c).contains(r[i].process_name@)
            &&& r[i].count == quantas(c, |x: NetConnection| do_processo(x, r[i].process_name@))
            &&& r[i].tcp_count == quantas(c, |x: NetConnection| do_processo(x, r[i].process_name@) && eh_tcp(x))
            &&& r[i].udp_count == quantas(c, |x: NetConnection| do_processo(x, r[i].process_name@) && eh_udp(x))
        }
    &&& forall|i: int, j: int| 0 <= i < j < r.len() ==> r[i].process_name@ != r[j].process_name@
    &&& forall|i: int, j: int| 0 <= i < j < r.len() ==> r[i].count >= r[j].count
    &&& forall|n: Seq<char>, i: int|
        #![trigger nomes_distintos(c).contains(n), r[i]]
        nomes_distintos(c).contains(n) && (forall|k: int| 0 <= k < r.len() ==> r[k].process_name@ != n)
            && 0 <= i < r.len() ==> quantas(c, |x: NetConnection| do_processo(x, n)) <= r[i].count
}

/// The (at most ten) processes with the most connections, most first: each process appears
/// once with how many connections it holds in all and how many of them are TCP and UDP; every
/// process left out holds no more connections than any process listed.
pub fn compute_top_processes(connections: &[NetConnection]) -> (r: Vec<ProcessConnection>)
    ensures
        eh_top_processos(connections@, r@),
{
    let mut grupos: Vec<ProcessConnection> = Vec::new();
    let mut i: usize = 0;
    while i < connections.len()
        invariant
            i <= connections@.len(),
            grupos@.len() == nomes_distintos(connections@.take(i as int)).len(),
            forall|g: int|
                #![trigger grupos@[g]]
                0 <= g < grupos@.len() ==> {
                    let n = nomes_distintos(connections@.take(i as int))[g];
                    &&& grupos@[g].process_name@ == n
                    &&& grupos@[g].count == quantas(connections@.take(i as int), |c: NetConnection| do_processo(c, n))
                    &&& grupos@[g].tcp_count == quantas(connections@.take(i as int), |c: NetConnection| do_processo(c, n) && eh_tcp(c))
                    &&& grupos@[g].udp_count == quantas(connections@.take(i as int), |c: NetConnection| do_processo(c, n) && eh_udp(c))
                },
        decreases connections.len() - i,
    {
        let conn = &connections[i];
        let ghost t = connections@.take(i as int);
        let ghost t2 = connections@.take(i + 1);
        let ghost nome = conn.process_name@;
        proof {
            assert(t2.drop_last() == t);
            assert(t2.last() == *conn);
            lemma_nomes_distintos(t);
            reveal_strlit("TCP");
            reveal_strlit("UDP");
            assert("TCP"@[0] != "UDP"@[0]);
        }
        let eh_t = str_igual(conn.protocol.as_str(), "TCP");
        let eh_u = str_igual(conn.protocol.as_str(), "UDP");
        let mut g: usize = 0;
        while g < grupos.len() && !str_igual(grupos[g].process_name.as_str(), conn.process_name.as_str())
            invariant
                g <= grupos@.len(),
                nome == conn.process_name@,
                forall|h: int| 0 <= h < g ==> grupos@[h].process_name@ != nome,
            decreases grupos.len() - g,
        {
            g += 1;
        }
        if g < grupos.len() {
            let atual = &grupos[g];
            proof {
                lemma_quantas_limite(t, |c: NetConnection| do_processo(c, nome));
                lemma_quantas_limite(t, |c: NetConnection| do_processo(c, nome) && eh_tcp(c));
                lemma_quantas_limite(t, |c: NetConnection| do_processo(c, nome) && eh_udp(c));
                assert(nomes_distintos(t)[g as int] == nome);
                assert(nomes_distintos(t).contains(nome));
                assert(nomes_distintos(t2) == nomes_distintos(t));
            }
            let novo = ProcessConnection {
                process_name: atual.process_name.clone(),
                count: atual.count + 1,
                tcp_count: if eh_t { atual.tcp_count + 1 } else { atual.tcp_count },
                udp_count: if eh_u { atual.udp_count + 1 } else { atual.udp_count },
            };
            let ghost antes = grupos@;
            grupos.set(g, novo);
            proof {
                assert forall|h: int|
                    #![trigger grupos@[h]]
                    0 <= h < grupos@.len() implies {
                        let n = nomes_distintos(t2)[h];
                        &&& grupos@[h].process_name@ == n
                        &&& grupos@[h].count == quantas(t2, |c: NetConnection| do_processo(c, n))
                        &&& grupos@[h].tcp_count == quantas(t2, |c: NetConnection| do_processo(c, n) && eh_tcp(c))
                        &&& grupos@[h].udp_count == quantas(t2, |c: NetConnection| do_processo(c, n) && eh_udp(c))
                    } by {
                    let n = nomes_distintos(t2)[h];
                    assert(antes[h] == grupos@[h] || h == g);
                    lemma_quantas_passo(connections@, i as int, |c: NetConnection| do_processo(c, n));
                    lemma_quantas_passo(connections@, i as int, |c: NetConnection| do_processo(c, n) && eh_tcp(c));
                    lemma_quantas_passo(connections@, i as int, |c: NetConnection| do_processo(c, n) && eh_udp(c));
                    assert(connections@[i as int] == *conn);
                    if h != g {
                        assert(n != nome);
                    }
                }
            }
        } else {
            proof {
                assert(!nomes_distintos(t).contains(nome)) by {
                    if nomes_distintos(t).contains(nome) {
                        let h = choose|h: int| 0 <= h < nomes_distintos(t).len() && nomes_distintos(t)[h] == nome;
                        assert(grupos@[h].process_name@ == nome);
                    }
                }
                assert(nomes_distintos(t2) == nomes_distintos(t).push(nome));
                lemma_nome_ausente(t, nome);
            }
            let novo = ProcessConnection {
                process_name: conn.process_name.clone(),
                count: 1,
                tcp_count: if eh_t { 1 } else { 0 },
                udp_count: if eh_u { 1 } else { 0 },
            };
            let ghost antes = grupos@;
            grupos.push(novo);
            proof {
                assert forall|h: int|
                    #![trigger grupos@[h]]
                    0 <= h < grupos@.len() implies {
                        let n = nomes_distintos(t2)[h];
                        &&& grupos@[h].process_name@ == n
                        &&& grupos@[h].count == quantas(t2, |c: NetConnection| do_processo(c, n))
                        &&& grupos@[h].tcp_count == quantas(t2, |c: NetConnection| do_processo(c, n) && eh_tcp(c))
                        &&& grupos@[h].udp_count == quantas(t2, |c: NetConnection| do_processo(c, n) && eh_udp(c))
                    } by {
                    let n = nomes_distintos(t2)[h];
                    lemma_quantas_passo(connections@, i as int, |c: NetConnection| do_processo(c, n));
                    lemma_quantas_passo(connections@, i as int, |c: NetConnection| do_processo(c, n) && eh_tcp(c));
                    lemma_quantas_passo(connections@, i as int, |c: NetConnection| do_processo(c, n) && eh_udp(c));
                    assert(connections@[i as int] == *conn);
                    if h < antes.len() {
                        assert(antes[h] == grupos@[h]);
                        assert(nomes_distintos(t)[h] == n);
                        assert(n != nome);
                    }
                }
            }
        }
        i += 1;
    }
    let ghost c = connections@;
    proof {
        assert(connections@.take(connections@.len() as int) == c);
        lemma_nomes_distintos(c);
    }
    let mut chaves: Vec<u64> = Vec::new();
    let mut k: usize = 0;
    while k < grupos.len()
        invariant
            k <= grupos@.len(),
            chaves@.len() == k,
            forall|h: int| 0 <= h < k ==> chaves@[h] == grupos@[h].count,
        decreases grupos.len() - k,
    {
        chaves.push(grupos[k].count as u64);
        k += 1;
    }
    let idx = selecionar_maiores(&chaves, 10);
    let mut r: Vec<ProcessConnection> = Vec::new();
    let mut m: usize = 0;
    while m < idx.len()
        invariant
            eh_selecao_dos_maiores(chaves@, 10, idx@),
            chaves@.len() == grupos@.len(),
            forall|h: int| 0 <= h < grupos@.len() ==> chaves@[h] == grupos@[h].count,
            m <= idx@.len(),
            r@.len() == m,
            forall|q: int| 0 <= q < m ==> {
                &&& r@[q].process_name@ == grupos@[idx@[q] as int].process_name@
                &&& r@[q].count == grupos@[idx@[q] as int].count
                &&& r@[q].tcp_count == grupos@[idx@[q] as int].tcp_count
                &&& r@[q].udp_count == grupos@[idx@[q] as int].udp_count
            },
        decreases idx.len() - m,
    {
        let gr = &grupos[idx[m]];
        r.push(ProcessConnection {
            process_name: gr.process_name.clone(),
            count: gr.count,
            tcp_count: gr.tcp_count,
            udp_count: gr.udp_count,
        });
        m += 1;
    }
    proof {
        let nomes = nomes_distintos(c);
        assert forall|i: int|
            #![trigger r@[i]]
            0 <= i < r@.len() implies {
                &&& nomes.contains(r@[i].process_name@)
                &&& r@[i].count == quantas(c, |x: NetConnection| do_processo(x, r@[i].process_name@))
                &&& r@[i].tcp_count == quantas(c, |x: NetConnection| do_processo(x, r@[i].process_name@) && eh_tcp(x))
                &&& r@[i].udp_count == quantas(c, |x: NetConnection| do_processo(x, r@[i].process_name@) && eh_udp(x))
            } by {
            let h = idx@[i] as int;
            assert(grupos@[h].process_name@ == nomes[h]);
        }
        assert forall|i: int, j: int| 0 <= i < j < r@.len() implies r@[i].process_name@ != r@[j].process_name@ by {
            assert(grupos@[idx@[i] as int].process_name@ == nomes[idx@[i] as int]);
            assert(grupos@[idx@[j] as int].process_name@ == nomes[idx@[j] as int]);
        }
        assert forall|i: int, j: int| 0 <= i < j < r@.len() implies r@[i].count >= r@[j].count by {
            assert(chaves@[idx@[i] as int] >= chaves@[idx@[j] as int]);
        }
        assert forall|n: Seq<char>, i: int|
            #![trigger nomes.contains(n), r@[i]]
            nomes.contains(n) && (forall|k: int| 0 <= k < r@.len() ==> r@[k].process_name@ != n)
                && 0 <= i < r@.len() implies quantas(c, |x: NetConnection| do_processo(x, n)) <= r@[i].count by {
            let h = choose|h: int| 0 <= h < nomes.len() && nomes[h] == n;
            assert(grupos@[h].process_name@ == n);
            if idx@.contains(h as usize) {
                let q = choose|q: int| 0 <= q < idx@.len() && idx@[q] == h as usize;
                assert(r@[q].process_name@ == n);
            }
            assert(chaves@[h] <= chaves@[idx@[i] as int]);
        }
    }
    r
}


/// The port at the end of an address: what follows its last `:`, read as a `u16`; 0 when that
/// is no number in range.
pub open spec fn porta_de(addr: Seq<char>) -> nat {
    match numero_ate(divide(addr, ':').last(), u16::MAX as nat) {
        Some(p) => p,
        None => 0,
    }
}

/// The name of a well-known port, or `:` and the port number.
pub open spec fn descricao_porta(porta: nat) -> Seq<char> {
    if porta == 80 {
        "HTTP"@
    } else if porta == 443 {
        "HTTPS"@
    } else if porta == 22 {
        "SSH"@
    } else if porta == 53 {
        "DNS"@
    } else if porta == 25 {
        "SMTP"@
    } else if porta == 993 {
        "IMAPS"@
    } else if porta == 3306 {
        "MySQL"@
    } else if porta == 5432 {
        "PostgreSQL"@
    } else if porta == 6379 {
        "Redis"@
    } else if porta == 8080 {
        "HTTP-alt"@
    } else if porta == 8443 {
        "HTTPS-alt"@
    } else if porta == 5353 {
        "mDNS"@
    } else if porta == 123 {
        "NTP"@
    } else {
        seq![':'] + decimal(porta)
    }
}

/// Names the port of an address such as `127.0.0.1:443` or `*:8080`.
pub fn port_desc(addr: &str) -> (r: String)
    ensures
        r@ == descricao_porta(porta_de(addr@)),
{
    let v = caracteres(addr);
    let partes = dividir(&v, ':');
    let ultima = &partes[partes.len() - 1];
    proof { assert(ultima@ == divide(addr@, ':').last()); }
    let porta: u16 = match analisar_u16(ultima) {
        Some(p) => p,
        None => 0,
    };
    if porta == 80 {
        "HTTP".to_owned()
    } else if porta == 443 {
        "HTTPS".to_owned()
    } else if porta == 22 {
        "SSH".to_owned()
    } else if porta == 53 {
        "DNS".to_owned()
    } else if porta == 25 {
        "SMTP".to_owned()
    } else if porta == 993 {
        "IMAPS".to_owned()
    } else if porta == 3306 {
        "MySQL".to_owned()
    } else if porta == 5432 {
        "PostgreSQL".to_owned()
    } else if porta == 6379 {
        "Redis".to_owned()
    } else if porta == 8080 {
        "HTTP-alt".to_owned()
    } else if porta == 8443 {
        "HTTPS-alt".to_owned()
    } else if porta == 5353 {
        "mDNS".to_owned()
    } else if porta == 123 {
        "NTP".to_owned()
    } else {
        let mut r = ":".to_owned();
        proof { reveal_strlit(":"); }
        escrever_decimal(porta as u64, &mut r);
        r
    }
}

/// What a listening service shows, as plain values.
pub open spec fn vista_servico(s: ListeningService) -> (Seq<char>, i32, Seq<char>, Seq<char>, Seq<char>) {
    (s.process_name@, s.pid, s.protocol@, s.local@, s.port_desc@)
}

pub open spec fn escuta_tcp(c: NetConnection) -> bool {
    c.state@ == "LISTEN"@ && c.protocol@ == "TCP"@
}

/// The TCP sockets in the LISTEN state, in the order of `s`, each with the name of its port.
pub open spec fn servicos_escutando(s: Seq<NetConnection>) -> Seq<(Seq<char>, i32, Seq<char>, Seq<char>, Seq<char>)>
    decreases s.len(),
{
    if s.len() == 0 {
        seq![]
    } else {
        let p = servicos_escutando(s.drop_last());
        let c = s.last();
        if escuta_tcp(c) {
            p.push((c.process_name@, c.pid, c.protocol@, c.local@, descricao_porta(porta_de(c.local@))))
        } else {
            p
        }
    }
}

/// `x` put into the sequence `s`, which is sorted by port name, after every entry whose port
/// name does not come after its own.
pub open spec fn insere_por_porta(
    s: Seq<(Seq<char>, i32, Seq<char>, Seq<char>, Seq<char>)>,
    x: (Seq<char>, i32, Seq<char>, Seq<char>, Seq<char>),
) -> Seq<(Seq<char>, i32, Seq<char>, Seq<char>, Seq<char>)>
    decreases s.len(),
{
    if s.len() == 0 {
        seq![x]
    } else if lex_menor_igual(s.last().4, x.4) {
        s.push(x)
    } else {
        insere_por_porta(s.drop_last(), x).push(s.last())
    }
}

/// `s` stably sorted by port name (entries with equal names keep their order).
pub open spec fn ordena_por_porta(
    s: Seq<(Seq<char>, i32, Seq<char>, Seq<char>, Seq<char>)>,
) -> Seq<(Seq<char>, i32, Seq<char>, Seq<char>, Seq<char>)>
    decreases s.len(),
{
    if s.len() == 0 {
        seq![]
    } else {
        insere_por_porta(ordena_por_porta(s.drop_last()), s.last())
    }
}

pub open spec fn vistas_servicos(r: Seq<ListeningService>) -> Seq<(Seq<char>, i32, Seq<char>, Seq<char>, Seq<char>)> {
    Seq::new(r.len(), |i: int| vista_servico(r[i]))
}

/// The TCP sockets in the LISTEN state, with their port names, stably sorted by port name.
pub fn compute_listening_services(connections: &[NetConnection]) -> (r: Vec<ListeningService>)
    ensures
        vistas_servicos(r@) == ordena_por_porta(servicos_escutando(connections@)),
{
    let mut r: Vec<ListeningService> = Vec::new();
    let mut chaves: Vec<Vec<char>> = Vec::new();
    let mut i: usize = 0;
    while i < connections.len()
        invariant
            i <= connections@.len(),
            chaves@.len() == r@.len(),
            forall|q: int| 0 <= q < r@.len() ==> chaves@[q]@ == r@[q].port_desc@,
            vistas_servicos(r@) == ordena_por_porta(servicos_escutando(connections@.take(i as int))),
        decreases connections.len() - i,
    {
        let conn = &connections[i];
        proof {
            assert(connections@.take(i + 1).drop_last() == connections@.take(i as int));
            assert(connections@.take(i + 1).last() == *conn);
        }
        if str_igual(conn.state.as_str(), "LISTEN") && str_igual(conn.protocol.as_str(), "TCP") {
            let desc = port_desc(conn.local.as_str());
            let chave = caracteres(desc.as_str());
            let ghost x = (conn.process_name@, conn.pid, conn.protocol@, conn.local@, desc@);
            let ghost s = vistas_servicos(r@);
            let mut p = r.len();
            proof {
                assert(s.take(p as int) == s);
                assert(s.skip(p as int) =~= seq![]);
                assert(insere_por_porta(s, x) + seq![] == insere_por_porta(s, x));
            }
            while p > 0 && !menor_igual(&chaves[p - 1], &chave)
                invariant
                    p <= r@.len(),
                    chaves@.len() == r@.len(),
                    forall|q: int| 0 <= q < r@.len() ==> chaves@[q]@ == r@[q].port_desc@,
                    s == vistas_servicos(r@),
                    chave@ == x.4,
                    insere_por_porta(s, x) == insere_por_porta(s.take(p as int), x) + s.skip(p as int),
                decreases p,
            {
                proof {
                    let t = s.take(p as int);
                    assert(t.last() == s[p - 1]);
                    assert(t.drop_last() == s.take(p - 1));
                    assert(s.skip(p - 1) == seq![s[p - 1]] + s.skip(p as int));
                    assert(insere_por_porta(s.take(p - 1), x).push(s[p - 1]) + s.skip(p as int)
                        == insere_por_porta(s.take(p - 1), x) + s.skip(p - 1));
                }
                p -= 1;
            }
            proof {
                if p > 0 {
                    assert(s.take(p as int).last() == s[p - 1]);
                    assert(vistas_servicos(r@)[p - 1] == vista_servico(r@[p - 1]));
                    assert(insere_por_porta(s.take(p as int), x) == s.take(p as int).push(x));
                } else {
                    assert(s.take(0) =~= seq![]);
                    assert(insere_por_porta(s.take(p as int), x) == s.take(p as int).push(x));
                }
                assert(s.take(p as int).push(x) + s.skip(p as int) =~= s.insert(p as int, x));
                assert(servicos_escutando(connections@.take(i + 1)) == servicos_escutando(connections@.take(i as int)).push(x));
            }
            let servico = ListeningService {
                process_name: conn.process_name.clone(),
                pid: conn.pid,
                protocol: conn.protocol.clone(),
                local: conn.local.clone(),
                port_desc: desc,
            };
            let ghost antes = r@;
            r.insert(p, servico);
            chaves.insert(p, chave);
            proof {
                assert(vistas_servicos(r@) =~= s.insert(p as int, x));
                assert forall|q: int| 0 <= q < r@.len() implies chaves@[q]@ == r@[q].port_desc@ by {
                    if q < p {
                    } else if q > p {
                        assert(r@[q] == antes[q - 1]);
                    }
                }
                assert(vistas_servicos(r@) == insere_por_porta(s, x));
                let pp = servicos_escutando(connections@.take(i as int));
                assert(pp.push(x).drop_last() == pp);
                assert(pp.push(x).last() == x);
                assert(ordena_por_porta(servicos_escutando(connections@.take(i + 1))) == insere_por_porta(s, x));
            }
        } else {
            proof {
                assert(!escuta_tcp(*conn));
                assert(servicos_escutando(connections@.take(i + 1)) == servicos_escutando(connections@.take(i as int)));
            }
        }
        i += 1;
    }
    proof { assert(connections@.take(connections@.len() as int) == connections@); }
    r
}


/// A connection as plain values: pid, process, protocol, local address, remote address, state.
pub open spec fn vista_conexao(c: NetConnection) -> (i32, Seq<char>, Seq<char>, Seq<char>, Seq<char>, Seq<char>) {
    (c.pid, c.process_name@, c.protocol@, c.local@, c.remote@, c.state@)
}

/// The state in a trailing `(...)` of an lsof NAME column, and the address before it.
pub open spec fn estado_e_endereco(nome: Seq<char>) -> (Seq<char>, Seq<char>) {
    match ultima(nome, '(') {
        Some(p) => if nome.len() > 0 && nome.last() == ')' {
            (nome.subrange(p + 1, nome.len() - 1), apara(nome.subrange(0, p)))
        } else {
            (seq![], nome)
        },
        None => (seq![], nome),
    }
}

/// The two sides of an address `local->remote`; the remote side is empty when there is no arrow.
pub open spec fn local_e_remoto(addr: Seq<char>) -> (Seq<char>, Seq<char>) {
    match primeira(addr, "->"@) {
        Some(a) => (addr.subrange(0, a), addr.subrange(a + 2, addr.len() as int)),
        None => (addr, seq![]),
    }
}

/// One line of `lsof -i -P -n`: COMMAND, PID, ..., NODE (the protocol, 8th column), then NAME;
/// lines with fewer than nine columns give nothing; a PID that is no `i32` reads as 0.
pub open spec fn linha_lsof(l: Seq<char>) -> Option<(i32, Seq<char>, Seq<char>, Seq<char>, Seq<char>, Seq<char>)> {
    let w = palavras(l);
    if w.len() < 9 {
        None
    } else {
        let pid: i32 = match inteiro_entre(w[1], i32::MIN as int, i32::MAX as int) {
            Some(v) => v as i32,
            None => 0,
        };
        let nome = junta(w.skip(8), seq![' ']);
        let (estado, addr) = estado_e_endereco(nome);
        let (local, remoto) = local_e_remoto(addr);
        Some((pid, w[0], w[7], local, remoto, estado))
    }
}

/// The lines after the first (`Iterator::skip(1)`).
pub open spec fn sem_primeira(ls: Seq<Seq<char>>) -> Seq<Seq<char>> {
    if ls.len() == 0 {
        seq![]
    } else {
        ls.skip(1)
    }
}

/// The connections that the lines give, in order.
pub open spec fn conexoes_das_linhas(ls: Seq<Seq<char>>) -> Seq<(i32, Seq<char>, Seq<char>, Seq<char>, Seq<char>, Seq<char>)>
    decreases ls.len(),
{
    if ls.len() == 0 {
        seq![]
    } else {
        let p = conexoes_das_linhas(ls.drop_last());
        match linha_lsof(ls.last()) {
            Some(c) => p.push(c),
            None => p,
        }
    }
}

pub open spec fn vistas_conexoes(r: Seq<NetConnection>) -> Seq<(i32, Seq<char>, Seq<char>, Seq<char>, Seq<char>, Seq<char>)> {
    Seq::new(r.len(), |i: int| vista_conexao(r[i]))
}

/// Reads one line of `lsof -i -P -n`.
pub fn analisar_linha_lsof(l: &[char]) -> (r: Option<NetConnection>)
    ensures
        match r {
            Some(c) => linha_lsof(l@) == Some(vista_conexao(c)) && c.hostname is None,
            None => linha_lsof(l@) is None,
        },
{
    let w = separar_palavras(l);
    proof { assert(vistas(w@) == palavras(l@)); }
    if w.len() < 9 {
        return None;
    }
    proof {
        assert(vistas(w@)[1] == w@[1]@);
        assert(vistas(w@)[0] == w@[0]@);
        assert(vistas(w@)[7] == w@[7]@);
    }
    let pid: i32 = match analisar_i32(&w[1]) {
        Some(v) => v,
        None => 0,
    };
    let nome = juntar_com_espaco(&w, 8);
    let n = nome.len();
    let (estado, addr): (Vec<char>, Vec<char>) = match ultima_posicao(&nome, '(') {
        Some(p) => if n > 0 && nome[n - 1] == ')' {
            (fatia(&nome, p + 1, n - 1), aparar(&fatia(&nome, 0, p)))
        } else {
            (Vec::new(), fatia(&nome, 0, n))
        },
        None => (Vec::new(), fatia(&nome, 0, n)),
    };
    proof {
        assert(nome@.subrange(0, n as int) == nome@);
        assert(estado_e_endereco(nome@) == (estado@, addr@));
    }
    let seta: Vec<char> = vec!['-', '>'];
    proof {
        reveal_strlit("->");
        assert(seta@ =~= "->"@);
    }
    let m = addr.len();
    let (local, remoto): (Vec<char>, Vec<char>) = match primeira_ocorrencia(&addr, &seta) {
        Some(a) => (fatia(&addr, 0, a), fatia(&addr, a + 2, m)),
        None => (fatia(&addr, 0, m), Vec::new()),
    };
    proof {
        assert(addr@.subrange(0, m as int) == addr@);
        assert(local_e_remoto(addr@) == (local@, remoto@));
    }
    let c = NetConnection {
        pid,
        process_name: texto_de(&w[0]),
        protocol: texto_de(&w[7]),
        local: texto_de(&local),
        remote: texto_de(&remoto),
        state: texto_de(&estado),
        hostname: None,
    };
    Some(c)
}

/// The connections in the output of `lsof -i -P -n` (its first line is the header).
pub fn parse_connections(saida: &str) -> (r: Vec<NetConnection>)
    ensures
        vistas_conexoes(r@) == conexoes_das_linhas(sem_primeira(linhas(saida@))),
        forall|i: int| 0 <= i < r@.len() ==> r@[i].hostname is None,
{
    let v = caracteres(saida);
    let ls = separar_linhas(&v);
    let ghost todas = linhas(saida@);
    let mut r: Vec<NetConnection> = Vec::new();
    if ls.len() == 0 {
        proof { assert(vistas(ls@).len() == 0); }
        return r;
    }
    let mut i: usize = 1;
    while i < ls.len()
        invariant
            1 <= i <= ls@.len(),
            vistas(ls@) == todas,
            vistas_conexoes(r@) == conexoes_das_linhas(todas.skip(1).take(i - 1)),
            forall|k: int| 0 <= k < r@.len() ==> r@[k].hostname is None,
        decreases ls.len() - i,
    {
        let ghost t = todas.skip(1).take(i as int);
        proof {
            assert(t.drop_last() == todas.skip(1).take(i - 1));
            assert(t.last() == ls@[i as int]@);
        }
        match analisar_linha_lsof(&ls[i]) {
            Some(c) => {
                r.push(c);
                proof { assert(vistas_conexoes(r@) =~= conexoes_das_linhas(todas.skip(1).take(i - 1)).push(vista_conexao(c))); }
            },
            None => {},
        }
        i += 1;
    }
    proof { assert(todas.skip(1).take(i - 1) == todas.skip(1)); }
    r
}


/// The kind of a network interface, by its name.
#[derive(Debug, PartialEq, Eq)]
pub enum TipoInterface {
    Fisica,
    Virtual,
    Especial,
}

/// Interfaces whose lowercased name begins with `en` are physical; those beginning with `utun`,
/// `bridge`, `gif`, `stf`, `vnic` or `anpi` are virtual; the rest are special.
pub open spec fn tipo_interface(nome: Seq<char>) -> TipoInterface {
    let n = minusculas(nome);
    if comeca_com(n, "en"@) {
        TipoInterface::Fisica
    } else if comeca_com(n, "utun"@) || comeca_com(n, "bridge"@) || comeca_com(n, "gif"@)
        || comeca_com(n, "stf"@) || comeca_com(n, "vnic"@) || comeca_com(n, "anpi"@) {
        TipoInterface::Virtual
    } else {
        TipoInterface::Especial
    }
}

/// Classifies an interface by its name.
pub fn classificar_interface(nome: &str) -> (r: TipoInterface)
    ensures
        r == tipo_interface(nome@),
{
    let n = para_minusculas(nome);
    let v = caracteres(n.as_str());
    if comeca_str(&v, "en") {
        TipoInterface::Fisica
    } else if comeca_str(&v, "utun") || comeca_str(&v, "bridge") || comeca_str(&v, "gif")
        || comeca_str(&v, "stf") || comeca_str(&v, "vnic") || comeca_str(&v, "anpi") {
        TipoInterface::Virtual
    } else {
        TipoInterface::Especial
    }
}

/// The interfaces of `s` of kind `t`, in order.
pub open spec fn do_tipo(s: Seq<NetworkInterface>, t: TipoInterface) -> Seq<NetworkInterface>
    decreases s.len(),
{
    if s.len() == 0 {
        seq![]
    } else {
        let p = do_tipo(s.drop_last(), t);
        if tipo_interface(s.last().name@) == t {
            p.push(s.last())
        } else {
            p
        }
    }
}

/// The bytes received over all interfaces of `s`.
pub open spec fn soma_recebidos(s: Seq<NetworkInterface>) -> nat
    decreases s.len(),
{
    if s.len() == 0 {
        0
    } else {
        soma_recebidos(s.drop_last()) + s.last().received_bytes as nat
    }
}

/// The bytes transmitted over all interfaces of `s`.
pub open spec fn soma_transmitidos(s: Seq<NetworkInterface>) -> nat
    decreases s.len(),
{
    if s.len() == 0 {
        0
    } else {
        soma_transmitidos(s.drop_last()) + s.last().transmitted_bytes as nat
    }
}

pub proof fn lemma_somas_prefixo(s: Seq<NetworkInterface>, k: int)
    requires
        0 <= k <= s.len(),
    ensures
        soma_recebidos(s.take(k)) <= soma_recebidos(s),
        soma_transmitidos(s.take(k)) <= soma_transmitidos(s),
    decreases s.len(),
{
    if k < s.len() {
        lemma_somas_prefixo(s.drop_last(), k);
        assert(s.drop_last().take(k) == s.take(k));
    } else {
        assert(s.take(k) == s);
    }
}

/// Sums the traffic of the interfaces and splits them into physical, virtual and special ones,
/// each kind in the order given.
pub fn resumir_trafego(interfaces: Vec<NetworkInterface>) -> (r: TrafficSummary)
    requires
        soma_recebidos(interfaces@) <= u64::MAX,
        soma_transmitidos(interfaces@) <= u64::MAX,
    ensures
        r.total_received == soma_recebidos(interfaces@),
        r.total_transmitted == soma_transmitidos(interfaces@),
        r.physical@ == do_tipo(interfaces@, TipoInterface::Fisica),
        r.virtual_ifaces@ == do_tipo(interfaces@, TipoInterface::Virtual),
        r.special@ == do_tipo(interfaces@, TipoInterface::Especial),
{
    let ghost todas = interfaces@;
    let mut resto = interfaces;
    let mut physical: Vec<NetworkInterface> = Vec::new();
    let mut virtual_ifaces: Vec<NetworkInterface> = Vec::new();
    let mut special: Vec<NetworkInterface> = Vec::new();
    let mut total_received: u64 = 0;
    let mut total_transmitted: u64 = 0;
    let ghost mut k: int = 0;
    while resto.len() > 0
        invariant
            0 <= k <= todas.len(),
            resto@ == todas.skip(k),
            soma_recebidos(todas) <= u64::MAX,
            soma_transmitidos(todas) <= u64::MAX,
            total_received == soma_recebidos(todas.take(k)),
            total_transmitted == soma_transmitidos(todas.take(k)),
            physical@ == do_tipo(todas.take(k), TipoInterface::Fisica),
            virtual_ifaces@ == do_tipo(todas.take(k), TipoInterface::Virtual),
            special@ == do_tipo(todas.take(k), TipoInterface::Especial),
        decreases resto.len(),
    {
        let iface = resto.remove(0);
        proof {
            assert(todas.take(k + 1).drop_last() == todas.take(k));
            assert(todas.take(k + 1).last() == iface);
            lemma_somas_prefixo(todas, k + 1);
        }
        total_received = total_received + iface.received_bytes;
        total_transmitted = total_transmitted + iface.transmitted_bytes;
        match classificar_interface(iface.name.as_str()) {
            TipoInterface::Fisica => physical.push(iface),
            TipoInterface::Virtual => virtual_ifaces.push(iface),
            TipoInterface::Especial => special.push(iface),
        }
        proof {
            k = k + 1;
            assert(resto@ == todas.skip(k));
        }
    }
    proof { assert(todas.take(k) == todas); }
    TrafficSummary { total_received, total_transmitted, physical, virtual_ifaces, special }
}

/// Builds the network page from the interfaces and the open connections.
pub fn montar_painel_rede(interfaces: Vec<NetworkInterface>, connections: Vec<NetConnection>) -> (r: NetworkDashboard)
    requires
        soma_recebidos(interfaces@) <= u64::MAX,
        soma_transmitidos(interfaces@) <= u64::MAX,
    ensures
        r.traffic.total_received == soma_recebidos(interfaces@),
        r.traffic.total_transmitted == soma_transmitidos(interfaces@),
        r.traffic.physical@ == do_tipo(interfaces@, TipoInterface::Fisica),
        r.traffic.virtual_ifaces@ == do_tipo(interfaces@, TipoInterface::Virtual),
        r.traffic.special@ == do_tipo(interfaces@, TipoInterface::Especial),
        r.connections@ == connections@,
        r.stats == estatisticas(connections@),
        eh_top_processos(connections@, r.top_processes@),
        vistas_servicos(r.listening_services@) == ordena_por_porta(servicos_escutando(connections@)),
{
    let traffic = resumir_trafego(interfaces);
    let stats = compute_stats(connections.as_slice());
    let top_processes = compute_top_processes(connections.as_slice());
    let listening_services = compute_listening_services(connections.as_slice());
    NetworkDashboard { traffic, connections, stats, top_processes, listening_services }
}


proof fn lemma_quantas_disjuntas(s: Seq<NetConnection>, f: spec_fn(NetConnection) -> bool, g: spec_fn(NetConnection) -> bool)
    requires
        forall|i: int| 0 <= i < s.len() ==> !(f(#[trigger] s[i]) && g(s[i])),
    ensures
        quantas(s, f) + quantas(s, g) == quantas(s, |x: NetConnection| f(x) || g(x)),
    decreases s.len(),
{
    if s.len() > 0 {
        assert forall|i: int| 0 <= i < s.drop_last().len() implies !(f(#[trigger] s.drop_last()[i]) && g(s.drop_last()[i])) by {
            assert(s.drop_last()[i] == s[i]);
        }
        lemma_quantas_disjuntas(s.drop_last(), f, g);
        assert(!(f(s[s.len() - 1]) && g(s[s.len() - 1])));
    }
}

proof fn lemma_quantas_todas(s: Seq<NetConnection>, f: spec_fn(NetConnection) -> bool)
    requires
        forall|i: int| 0 <= i < s.len() ==> f(#[trigger] s[i]),
    ensures
        quantas(s, f) == s.len(),
    decreases s.len(),
{
    if s.len() > 0 {
        assert forall|i: int| 0 <= i < s.drop_last().len() implies f(#[trigger] s.drop_last()[i]) by {
            assert(s.drop_last()[i] == s[i]);
        }
        lemma_quantas_todas(s.drop_last(), f);
        assert(f(s[s.len() - 1]));
    }
}

/// The connection counts never exceed the total: the TCP and UDP counts together are at most
/// the number of connections, and equal to it when every connection is TCP or UDP; the counts of
/// the four states (established, listening, close-wait, time-wait) together are at most it too.
pub proof fn lei_contagens_de_conexoes(c: Seq<NetConnection>)
    requires
        c.len() <= usize::MAX,
    ensures
        estatisticas(c).total == c.len(),
        estatisticas(c).tcp + estatisticas(c).udp <= estatisticas(c).total,
        (forall|i: int| 0 <= i < c.len() ==> eh_tcp(#[trigger] c[i]) || eh_udp(c[i]))
            ==> estatisticas(c).tcp + estatisticas(c).udp == estatisticas(c).total,
        estatisticas(c).established + estatisticas(c).listening + estatisticas(c).close_wait
            + estatisticas(c).time_wait <= estatisticas(c).total,
{
    let ft = |x: NetConnection| eh_tcp(x);
    let fu = |x: NetConnection| eh_udp(x);
    let fe = |x: NetConnection| no_estado(x, "ESTABLISHED"@);
    let fl = |x: NetConnection| no_estado(x, "LISTEN"@);
    let fc = |x: NetConnection| no_estado(x, "CLOSE_WAIT"@);
    let fw = |x: NetConnection| no_estado(x, "TIME_WAIT"@);
    reveal_strlit("TCP");
    reveal_strlit("UDP");
    reveal_strlit("ESTABLISHED");
    reveal_strlit("LISTEN");
    reveal_strlit("CLOSE_WAIT");
    reveal_strlit("TIME_WAIT");
    assert("TCP"@[0] != "UDP"@[0]);
    assert forall|i: int| 0 <= i < c.len() implies !(ft(#[trigger] c[i]) && fu(c[i])) by {
        if ft(c[i]) && fu(c[i]) {
            assert(c[i].protocol@[0] == "TCP"@[0]);
        }
    }
    lemma_quantas_disjuntas(c, ft, fu);
    let ftu = |x: NetConnection| ft(x) || fu(x);
    lemma_quantas_limite(c, ftu);
    if forall|i: int| 0 <= i < c.len() ==> eh_tcp(#[trigger] c[i]) || eh_udp(c[i]) {
        lemma_quantas_todas(c, ftu);
    }
    assert("ESTABLISHED"@.len() == 11 && "LISTEN"@.len() == 6);
    assert("CLOSE_WAIT"@.len() == 10 && "TIME_WAIT"@.len() == 9);
    assert forall|i: int| 0 <= i < c.len() implies !(fe(#[trigger] c[i]) && fl(c[i])) by {
        if fe(c[i]) && fl(c[i]) {
            assert(c[i].state@.len() == 11);
        }
    }
    assert forall|i: int| 0 <= i < c.len() implies !(fc(#[trigger] c[i]) && fw(c[i])) by {
        if fc(c[i]) && fw(c[i]) {
            assert(c[i].state@.len() == 10);
        }
    }
    lemma_quantas_disjuntas(c, fe, fl);
    lemma_quantas_disjuntas(c, fc, fw);
    let fel = |x: NetConnection| fe(x) || fl(x);
    let fcw = |x: NetConnection| fc(x) || fw(x);
    assert forall|i: int| 0 <= i < c.len() implies !(fel(#[trigger] c[i]) && fcw(c[i])) by {}
    lemma_quantas_disjuntas(c, fel, fcw);
    lemma_quantas_limite(c, |x: NetConnection| fel(x) || fcw(x));
    lemma_quantas_limite(c, ft);
    lemma_quantas_limite(c, fu);
    lemma_quantas_limite(c, fe);
    lemma_quantas_limite(c, fl);
    lemma_quantas_limite(c, fc);
    lemma_quantas_limite(c, fw);
}


proof fn lemma_somas_push(p: Seq<NetworkInterface>, x: NetworkInterface)
    ensures
        soma_recebidos(p.push(x)) == soma_recebidos(p) + x.received_bytes,
        soma_transmitidos(p.push(x)) == soma_transmitidos(p) + x.transmitted_bytes,
{
    assert(p.push(x).drop_last() == p);
}

/// The traffic summary splits the interfaces into three groups: every interface lands in exactly
/// one of the physical, virtual and special lists, so their sizes add up to the number of
/// interfaces, and the bytes each group received and transmitted add up to the totals.
pub proof fn lei_interfaces_em_tres_grupos(s: Seq<NetworkInterface>)
    ensures
        do_tipo(s, TipoInterface::Fisica).len() + do_tipo(s, TipoInterface::Virtual).len()
            + do_tipo(s, TipoInterface::Especial).len() == s.len(),
        soma_recebidos(do_tipo(s, TipoInterface::Fisica)) + soma_recebidos(do_tipo(s, TipoInterface::Virtual))
            + soma_recebidos(do_tipo(s, TipoInterface::Especial)) == soma_recebidos(s),
        soma_transmitidos(do_tipo(s, TipoInterface::Fisica)) + soma_transmitidos(do_tipo(s, TipoInterface::Virtual))
            + soma_transmitidos(do_tipo(s, TipoInterface::Especial)) == soma_transmitidos(s),
    decreases s.len(),
{
    if s.len() > 0 {
        let p = s.drop_last();
        let x = s.last();
        lei_interfaces_em_tres_grupos(p);
        lemma_somas_push(do_tipo(p, TipoInterface::Fisica), x);
        lemma_somas_push(do_tipo(p, TipoInterface::Virtual), x);
        lemma_somas_push(do_tipo(p, TipoInterface::Especial), x);
    }
}


/// `s` is sorted by port name.
pub open spec fn ordenado_por_porta(s: Seq<(Seq<char>, i32, Seq<char>, Seq<char>, Seq<char>)>) -> bool {
    forall|i: int, j: int| 0 <= i < j < s.len() ==> lex_menor_igual(#[trigger] s[i].4, #[trigger] s[j].4)
}

proof fn lemma_insere_por_porta(
    s: Seq<(Seq<char>, i32, Seq<char>, Seq<char>, Seq<char>)>,
    x: (Seq<char>, i32, Seq<char>, Seq<char>, Seq<char>),
)
    requires
        ordenado_por_porta(s),
    ensures
        ordenado_por_porta(insere_por_porta(s, x)),
        insere_por_porta(s, x).to_multiset() == s.to_multiset().insert(x),
        insere_por_porta(s, x).len() == s.len() + 1,
    decreases s.len(),
{
    broadcast use vstd::seq_lib::group_to_multiset_ensures;
    let r = insere_por_porta(s, x);
    if s.len() == 0 {
        assert(seq![x] == Seq::<(Seq<char>, i32, Seq<char>, Seq<char>, Seq<char>)>::empty().push(x));
    } else if lex_menor_igual(s.last().4, x.4) {
        assert forall|i: int, j: int| 0 <= i < j < r.len() implies lex_menor_igual(#[trigger] r[i].4, #[trigger] r[j].4) by {
            if j == s.len() {
                if i < s.len() - 1 {
                    lemma_lex_transitivo(s[i].4, s.last().4, x.4);
                }
            } else {
                assert(r[i] == s[i] && r[j] == s[j]);
            }
        }
    } else {
        let d = s.drop_last();
        let u = s.last();
        assert forall|i: int, j: int| 0 <= i < j < d.len() implies lex_menor_igual(#[trigger] d[i].4, #[trigger] d[j].4) by {
            assert(d[i] == s[i] && d[j] == s[j]);
        }
        lemma_insere_por_porta(d, x);
        let r1 = insere_por_porta(d, x);
        lemma_lex_total(u.4, x.4);
        assert forall|i: int, j: int| 0 <= i < j < r.len() implies lex_menor_igual(#[trigger] r[i].4, #[trigger] r[j].4) by {
            if j == r1.len() {
                let e = r1[i];
                assert(r1.contains(e));
                assert(r1.to_multiset().count(e) > 0);
                if e != x {
                    assert(d.to_multiset().count(e) > 0);
                    assert(d.contains(e));
                    let k = choose|k: int| 0 <= k < d.len() && d[k] == e;
                    assert(s[k] == e);
                    assert(lex_menor_igual(s[k].4, s[s.len() - 1].4));
                }
            } else {
                assert(r[i] == r1[i] && r[j] == r1[j]);
            }
        }
        assert(s == d.push(u));
        assert(r.to_multiset() =~= s.to_multiset().insert(x));
    }
}

proof fn lemma_ordena_por_porta(s: Seq<(Seq<char>, i32, Seq<char>, Seq<char>, Seq<char>)>)
    ensures
        ordenado_por_porta(ordena_por_porta(s)),
        ordena_por_porta(s).to_multiset() == s.to_multiset(),
    decreases s.len(),
{
    broadcast use vstd::seq_lib::group_to_multiset_ensures;
    if s.len() > 0 {
        lemma_ordena_por_porta(s.drop_last());
        lemma_insere_por_porta(ordena_por_porta(s.drop_last()), s.last());
        assert(s == s.drop_last().push(s.last()));
    }
}

/// The listening services come sorted by port name, and they are exactly the TCP sockets in the
/// LISTEN state, each once, none lost and none added.
pub proof fn lei_servicos_ordenados_por_porta(c: Seq<NetConnection>)
    ensures
        ordenado_por_porta(ordena_por_porta(servicos_escutando(c))),
        ordena_por_porta(servicos_escutando(c)).to_multiset() == servicos_escutando(c).to_multiset(),
{
    lemma_ordena_por_porta(servicos_escutando(c));
}


/// A line of `lsof -i -P -n` with at least nine columns always gives a connection: its process
/// is the first column, its protocol the eighth, and its pid the number written in the second
/// column, for any number that fits an `i32`.
pub proof fn lei_pid_da_linha_lsof(l: Seq<char>, n: nat)
    requires
        palavras(l).len() >= 9,
        palavras(l)[1] == decimal(n),
        n <= i32::MAX,
    ensures
        linha_lsof(l) matches Some(c) && c.0 as int == n as int && c.1 == palavras(l)[0] && c.2 == palavras(l)[7],
{
    lemma_inteiro_do_decimal(n, i32::MIN as int, i32::MAX as int);
}


/// The port that a port name stands for: the well-known port of a table name, or the number
/// after a `:`.
spec fn porta_do_nome(nome: Seq<char>) -> nat {
    if nome == "HTTP"@ {
        80
    } else if nome == "HTTPS"@ {
        443
    } else if nome == "SSH"@ {
        22
    } else if nome == "DNS"@ {
        53
    } else if nome == "SMTP"@ {
        25
    } else if nome == "IMAPS"@ {
        993
    } else if nome == "MySQL"@ {
        3306
    } else if nome == "PostgreSQL"@ {
        5432
    } else if nome == "Redis"@ {
        6379
    } else if nome == "HTTP-alt"@ {
        8080
    } else if nome == "HTTPS-alt"@ {
        8443
    } else if nome == "mDNS"@ {
        5353
    } else if nome == "NTP"@ {
        123
    } else if nome.len() > 0 && nome[0] == ':' {
        match numero_natural(nome.drop_first()) {
            Some(n) => n,
            None => 0,
        }
    } else {
        0
    }
}

proof fn lemma_porta_do_nome(porta: nat)
    ensures
        porta_do_nome(descricao_porta(porta)) == porta,
{
    reveal_strlit("HTTP");
    assert("HTTP"@.len() == 4 && "HTTP"@[0] == 'H');
    reveal_strlit("HTTPS");
    assert("HTTPS"@.len() == 5 && "HTTPS"@[0] == 'H');
    reveal_strlit("SSH");
    assert("SSH"@.len() == 3 && "SSH"@[0] == 'S');
    reveal_strlit("DNS");
    assert("DNS"@.len() == 3 && "DNS"@[0] == 'D');
    reveal_strlit("SMTP");
    assert("SMTP"@.len() == 4 && "SMTP"@[0] == 'S');
    reveal_strlit("IMAPS");
    assert("IMAPS"@.len() == 5 && "IMAPS"@[0] == 'I');
    reveal_strlit("MySQL");
    assert("MySQL"@.len() == 5 && "MySQL"@[0] == 'M');
    reveal_strlit("PostgreSQL");
    assert("PostgreSQL"@.len() == 10 && "PostgreSQL"@[0] == 'P');
    reveal_strlit("Redis");
    assert("Redis"@.len() == 5 && "Redis"@[0] == 'R');
    reveal_strlit("HTTP-alt");
    assert("HTTP-alt"@.len() == 8 && "HTTP-alt"@[0] == 'H');
    reveal_strlit("HTTPS-alt");
    assert("HTTPS-alt"@.len() == 9 && "HTTPS-alt"@[0] == 'H');
    reveal_strlit("mDNS");
    assert("mDNS"@.len() == 4 && "mDNS"@[0] == 'm');
    reveal_strlit("NTP");
    assert("NTP"@.len() == 3 && "NTP"@[0] == 'N');
    if descricao_porta(porta) == seq![':'] + decimal(porta) {
        let d = seq![':'] + decimal(porta);
        lemma_numero_do_decimal(porta, porta);
        assert(d.drop_first() == decimal(porta));
        assert(d.len() == decimal(porta).len() + 1);
        assert(d[0] == ':');
    }
}

/// Different ports never get the same name: each well-known port has a name of its own, no other
/// port is given one of those names, and any other port is named by its own number.
pub proof fn lei_nomes_de_portas_distintos(p: nat, q: nat)
    requires
        p != q,
    ensures
        descricao_porta(p) != descricao_porta(q),
{
    lemma_porta_do_nome(p);
    lemma_porta_do_nome(q);
}


/// An interface is physical when its lowercased name begins with `en`; virtual when it begins
/// with `utun`, `bridge`, `gif`, `stf`, `vnic` or `anpi`; special otherwise.
pub proof fn lei_tipos_de_interface(nome: Seq<char>)
    ensures
        comeca_com(minusculas(nome), "en"@) ==> tipo_interface(nome) == TipoInterface::Fisica,
        comeca_com(minusculas(nome), "utun"@) ==> tipo_interface(nome) == TipoInterface::Virtual,
        comeca_com(minusculas(nome), "bridge"@) ==> tipo_interface(nome) == TipoInterface::Virtual,
        comeca_com(minusculas(nome), "gif"@) ==> tipo_interface(nome) == TipoInterface::Virtual,
        comeca_com(minusculas(nome), "stf"@) ==> tipo_interface(nome) == TipoInterface::Virtual,
        comeca_com(minusculas(nome), "vnic"@) ==> tipo_interface(nome) == TipoInterface::Virtual,
        comeca_com(minusculas(nome), "anpi"@) ==> tipo_interface(nome) == TipoInterface::Virtual,
        tipo_interface(nome) == TipoInterface::Especial <==> !comeca_com(minusculas(nome), "en"@)
            && !comeca_com(minusculas(nome), "utun"@) && !comeca_com(minusculas(nome), "bridge"@)
            && !comeca_com(minusculas(nome), "gif"@) && !comeca_com(minusculas(nome), "stf"@)
            && !comeca_com(minusculas(nome), "vnic"@) && !comeca_com(minusculas(nome), "anpi"@),
{
    let n = minusculas(nome);
    reveal_strlit("en");
    assert("en"@.len() == 2 && "en"@[0] == 'e');
    reveal_strlit("utun");
    assert("utun"@.len() >= 3 && "utun"@[0] == 'u');
    reveal_strlit("bridge");
    assert("bridge"@.len() >= 3 && "bridge"@[0] == 'b');
    reveal_strlit("gif");
    assert("gif"@.len() >= 3 && "gif"@[0] == 'g');
    reveal_strlit("stf");
    assert("stf"@.len() >= 3 && "stf"@[0] == 's');
    reveal_strlit("vnic");
    assert("vnic"@.len() >= 3 && "vnic"@[0] == 'v');
    reveal_strlit("anpi");
    assert("anpi"@.len() >= 3 && "anpi"@[0] == 'a');
    if comeca_com(n, "en"@) {
        assert(n[0] == 'e');
        assert(!comeca_com(n, "utun"@)) by { if comeca_com(n, "utun"@) { assert(n.subrange(0, "utun"@.len() as int)[0] == n[0]); } }
        assert(!comeca_com(n, "bridge"@)) by { if comeca_com(n, "bridge"@) { assert(n.subrange(0, "bridge"@.len() as int)[0] == n[0]); } }
        assert(!comeca_com(n, "gif"@)) by { if comeca_com(n, "gif"@) { assert(n.subrange(0, "gif"@.len() as int)[0] == n[0]); } }
        assert(!comeca_com(n, "stf"@)) by { if comeca_com(n, "stf"@) { assert(n.subrange(0, "stf"@.len() as int)[0] == n[0]); } }
        assert(!comeca_com(n, "vnic"@)) by { if comeca_com(n, "vnic"@) { assert(n.subrange(0, "vnic"@.len() as int)[0] == n[0]); } }
        assert(!comeca_com(n, "anpi"@)) by { if comeca_com(n, "anpi"@) { assert(n.subrange(0, "anpi"@.len() as int)[0] == n[0]); } }
    }
}


/// The port of an address is the number written after its last `:`, whatever comes before it.
pub proof fn lei_porta_do_endereco(x: Seq<char>, p: nat)
    requires
        p <= u16::MAX,
    ensures
        porta_de(x + seq![':'] + decimal(p)) == p,
{
    lemma_decimal_le(p);
    assert forall|i: int| 0 <= i < decimal(p).len() implies decimal(p)[i] != ':' by {
        assert(eh_digito(decimal(p)[i]));
    }
    lemma_divide_junta(x, decimal(p), ':');
    lemma_numero_do_decimal(p, u16::MAX as nat);
}


proof fn lemma_primeira_seta(x: Seq<char>, y: Seq<char>)
    requires
        forall|i: int| 0 <= i < x.len() ==> x[i] != '-',
        "->"@ == seq!['-', '>'],
    ensures
        primeira(x + "->"@ + y, "->"@) == Some(x.len() as int),
{
    let seta = "->"@;
    let s = x + seta + y;
    let n = x.len() as int;
    assert(s.subrange(n, n + 2) =~= seta);
    assert forall|j: int| 0 <= j < n implies !ocorre_em(s, seta, j) by {
        if ocorre_em(s, seta, j) {
            assert(s.subrange(j, j + 2)[0] == s[j]);
        }
    }
    assert(eh_primeira(s, seta, n));
    let i = choose|i: int| eh_primeira(s, seta, i);
    if i < n {
        assert(!ocorre_em(s, seta, i));
    } else if i > n {
        assert(!ocorre_em(s, seta, n));
    }
}

proof fn lemma_sem_seta(x: Seq<char>)
    requires
        forall|i: int| 0 <= i < x.len() ==> x[i] != '-',
        "->"@ == seq!['-', '>'],
    ensures
        primeira(x, "->"@) is None,
{
    if exists|j: int| eh_primeira(x, "->"@, j) {
        let j = choose|j: int| eh_primeira(x, "->"@, j);
        assert(x.subrange(j, j + 2)[0] == x[j]);
    }
}

/// An `lsof` address `local->remote` splits at its arrow into the local and the remote side, when
/// the local side holds no `-`; an address without `-` is all local, with an empty remote side.
pub proof fn lei_lados_do_endereco(x: Seq<char>, y: Seq<char>)
    requires
        forall|i: int| 0 <= i < x.len() ==> x[i] != '-',
    ensures
        local_e_remoto(x + "->"@ + y) == (x, y),
        local_e_remoto(x) == (x, Seq::<char>::empty()),
{
    reveal_strlit("->");
    assert("->"@ =~= seq!['-', '>']);
    lemma_primeira_seta(x, y);
    lemma_sem_seta(x);
    let s = x + "->"@ + y;
    let n = x.len() as int;
    assert(s.subrange(0, n) =~= x);
    assert(s.subrange(n + 2, s.len() as int) =~= y);
}

/// The `NAME` column of `lsof` ending in ` (STATE)` gives that state, and the address before it;
/// one without `(` has no state and is all address.
pub proof fn lei_estado_da_conexao(a: Seq<char>, st: Seq<char>)
    requires
        a.len() > 0,
        !eh_espaco(a[0]),
        !eh_espaco(a.last()),
        forall|i: int| 0 <= i < st.len() ==> st[i] != '(',
        forall|i: int| 0 <= i < a.len() ==> a[i] != '(',
    ensures
        estado_e_endereco(a + seq![' ', '('] + st + seq![')']) == (st, a),
        estado_e_endereco(a) == (Seq::<char>::empty(), a),
{
    let s = a + seq![' ', '('] + st + seq![')'];
    let n = a.len() as int;
    assert(s[n + 1] == '(');
    assert forall|j: int| n + 1 < j < s.len() implies s[j] != '(' by {
        if j < s.len() - 1 {
            assert(s[j] == st[j - n - 2]);
        }
    }
    assert(eh_ultima(s, '(', n + 1));
    let i = choose|i: int| eh_ultima(s, '(', i);
    if i < n + 1 {
        assert(s[n + 1] == '(');
    }
    assert(ultima(s, '(') == Some(n + 1));
    assert(s.subrange(n + 2, s.len() - 1) =~= st);
    let b = s.subrange(0, n + 1);
    assert(b =~= a.push(' '));
    assert(b.drop_last() =~= a);
    assert(apara_inicio(b) == b);
    assert(apara_fim(b) == apara_fim(a));
    assert(apara(b) == a);
    if exists|j: int| eh_ultima(a, '(', j) {
        let j = choose|j: int| eh_ultima(a, '(', j);
    }
}


/// The `NAME` column with its state: the address, a space and the state in parentheses.
pub open spec fn com_estado(st: Seq<char>) -> Seq<char> {
    seq!['('] + st + seq![')']
}

proof fn lemma_nome_da_linha(cols: Seq<Seq<char>>, resto: Seq<Seq<char>>)
    requires
        cols.len() == 8,
        forall|i: int| 0 <= i < cols.len() ==> eh_palavra(#[trigger] cols[i]),
        forall|i: int| 0 <= i < resto.len() ==> eh_palavra(#[trigger] resto[i]),
        resto.len() > 0,
    ensures
        palavras(junta(cols + resto, seq![' '])) == cols + resto,
{
    let ws = cols + resto;
    assert forall|i: int| 0 <= i < ws.len() implies eh_palavra(#[trigger] ws[i]) by {
        if i < 8 {
            assert(ws[i] == cols[i]);
        } else {
            assert(ws[i] == resto[i - 8]);
        }
    }
    lemma_palavras_de_junta(ws);
}

/// A line of `lsof -i -P -n` (eight columns, then the `NAME` column) gives the connection of the
/// process in the first column, with the pid written in the second, the protocol of the eighth,
/// the local and remote sides of the address, and the state in parentheses after it (none when
/// there is no state).
pub proof fn lei_linha_lsof(cols: Seq<Seq<char>>, n: nat, addr: Seq<char>, st: Seq<char>)
    requires
        cols.len() == 8,
        forall|i: int| 0 <= i < cols.len() ==> eh_palavra(#[trigger] cols[i]),
        cols[1] == decimal(n),
        n <= i32::MAX,
        eh_palavra(addr),
        eh_palavra(st),
        forall|i: int| 0 <= i < addr.len() ==> addr[i] != '(',
        forall|i: int| 0 <= i < st.len() ==> st[i] != '(',
    ensures
        linha_lsof(junta(cols + seq![addr, com_estado(st)], seq![' ']))
            == Some((n as i32, cols[0], cols[7], local_e_remoto(addr).0, local_e_remoto(addr).1, st)),
        linha_lsof(junta(cols + seq![addr], seq![' ']))
            == Some((n as i32, cols[0], cols[7], local_e_remoto(addr).0, local_e_remoto(addr).1, Seq::<char>::empty())),
{
    let e = com_estado(st);
    assert(eh_palavra(e)) by {
        assert forall|i: int| 0 <= i < e.len() implies !eh_espaco(#[trigger] e[i]) by {
            if 0 < i < e.len() - 1 {
                assert(e[i] == st[i - 1]);
            }
        }
    }
    lemma_nome_da_linha(cols, seq![addr, e]);
    lemma_nome_da_linha(cols, seq![addr]);
    let l1 = junta(cols + seq![addr, e], seq![' ']);
    let l2 = junta(cols + seq![addr], seq![' ']);
    assert((cols + seq![addr, e]).skip(8) =~= seq![addr, e]);
    assert((cols + seq![addr]).skip(8) =~= seq![addr]);
    assert(seq![addr, e].drop_last() =~= seq![addr]);
    assert(junta(seq![addr], seq![' ']) == addr);
    assert(junta(seq![addr, e], seq![' ']) == addr + seq![' '] + e);
    assert(addr + seq![' '] + e =~= addr + seq![' ', '('] + st + seq![')']);
    assert(!eh_espaco(addr[0]) && !eh_espaco(addr[addr.len() - 1]));
    lei_estado_da_conexao(addr, st);
    lemma_inteiro_do_decimal(n, i32::MIN as int, i32::MAX as int);
    assert((cols + seq![addr, e])[1] == cols[1] && (cols + seq![addr, e])[0] == cols[0] && (cols + seq![addr, e])[7] == cols[7]);
    assert((cols + seq![addr])[1] == cols[1] && (cols + seq![addr])[0] == cols[0] && (cols + seq![addr])[7] == cols[7]);
}


/// The processes listed as holding the most connections are at most ten, never fewer than ten
/// when more processes hold connections, come most first, and the first holds at least as many
/// connections as any process at all.
pub proof fn lei_processos_com_mais_conexoes(c: Seq<NetConnection>, r: Seq<ProcessConnection>)
    requires
        eh_top_processos(c, r),
    ensures
        r.len() <= 10,
        nomes_distintos(c).len() >= 10 ==> r.len() == 10,
        r.len() == 0 <==> c.len() == 0,
        forall|i: int, j: int| 0 <= i < j < r.len() ==> r[i].count >= r[j].count,
        r.len() > 0 ==> forall|n: Seq<char>| #[trigger] nomes_distintos(c).contains(n)
            ==> quantas(c, |x: NetConnection| do_processo(x, n)) <= r[0].count,
{
    lemma_nomes_distintos(c);
    if c.len() > 0 {
        lemma_nomes_distintos_nao_vazio(c);
    }
    if r.len() > 0 {
        assert forall|n: Seq<char>| #[trigger] nomes_distintos(c).contains(n)
            implies quantas(c, |x: NetConnection| do_processo(x, n)) <= r[0].count by {
            if exists|k: int| 0 <= k < r.len() && r[k].process_name@ == n {
                let k = choose|k: int| 0 <= k < r.len() && r[k].process_name@ == n;
                assert(r[k].count == quantas(c, |x: NetConnection| do_processo(x, r[k].process_name@)));
                if k > 0 {
                    assert(r[0].count >= r[k].count);
                }
            } else {
                assert(nomes_distintos(c).contains(n) && (forall|k: int| 0 <= k < r.len() ==> r[k].process_name@ != n));
            }
        }
    }
}

proof fn lemma_nomes_distintos_nao_vazio(s: Seq<NetConnection>)
    requires
        s.len() > 0,
    ensures
        nomes_distintos(s).len() > 0,
    decreases s.len(),
{
    if s.len() > 1 {
        lemma_nomes_distintos_nao_vazio(s.drop_last());
    }
}

} // verus!
