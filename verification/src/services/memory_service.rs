use vstd::prelude::*;

use crate::models::hardware::MemBreakdown;
use crate::texto::{
    analisar_u64, apara, aparar, comeca_com, decimal, eh_digito, eh_espaco, lemma_apara_sem_espacos_nas_pontas,
    lemma_decimal_le, lemma_numero_do_decimal, lemma_palavra_unica, lemma_sem_prefixo_junta, todos_digitos, caracteres, linhas, numero_ate, palavras, segundo_pedaco,
    segundo_pedaco_de, sem_prefixo, separar_linhas, separar_palavras, tirar_prefixo, vistas,
};

verus! {

/// `s` without its trailing dots (`trim_end_matches('.')`).
pub open spec fn sem_pontos_finais(s: Seq<char>) -> Seq<char>
    decreases s.len(),
{
    if s.len() > 0 && s.last() == '.' {
        sem_pontos_finais(s.drop_last())
    } else {
        s
    }
}

/// `s` with every comma taken out (`replace(',', "")`).
pub open spec fn sem_virgulas(s: Seq<char>) -> Seq<char>
    decreases s.len(),
{
    if s.len() == 0 {
        s
    } else if s.last() == ',' {
        sem_virgulas(s.drop_last())
    } else {
        sem_virgulas(s.drop_last()).push(s.last())
    }
}

/// The count that a `vm_stat` line gives under `key`: the trimmed line must begin with `key`;
/// after it, trailing dots go, the first word is taken, its commas go, and it is read as a `u64`.
pub open spec fn valor_vm_stat(line: Seq<char>, key: Seq<char>) -> Option<nat> {
    match sem_prefixo(apara(line), key) {
        Some(resto) => {
            let ws = palavras(sem_pontos_finais(resto));
            if ws.len() > 0 {
                numero_ate(sem_virgulas(ws[0]), u64::MAX as nat)
            } else {
                None
            }
        },
        None => None,
    }
}

/// `trim_end_matches('.')` on a sequence of characters.
fn tirar_pontos_finais(v: &[char]) -> (r: Vec<char>)
    ensures
        r@ == sem_pontos_finais(v@),
{
    let mut b: usize = v.len();
    proof { assert(v@.subrange(0, v@.len() as int) == v@); }
    while b > 0 && v[b - 1] == '.'
        invariant
            b <= v@.len(),
            sem_pontos_finais(v@) == sem_pontos_finais(v@.subrange(0, b as int)),
        decreases b,
    {
        proof { assert(v@.subrange(0, b as int).drop_last() == v@.subrange(0, b - 1)); }
        b -= 1;
    }
    let mut r: Vec<char> = Vec::new();
    let mut i: usize = 0;
    while i < b
        invariant
            b <= v@.len(),
            i <= b,
            r@ == v@.subrange(0, i as int),
        decreases b - i,
    {
        r.push(v[i]);
        proof { assert(v@.subrange(0, i + 1) == v@.subrange(0, i as int).push(v@[i as int])); }
        i += 1;
    }
    r
}

/// `replace(',', "")` on a sequence of characters.
fn tirar_virgulas(v: &[char]) -> (r: Vec<char>)
    ensures
        r@ == sem_virgulas(v@),
{
    let mut r: Vec<char> = Vec::new();
    let mut i: usize = 0;
    while i < v.len()
        invariant
            i <= v@.len(),
            r@ == sem_virgulas(v@.take(i as int)),
        decreases v.len() - i,
    {
        proof {
            assert(v@.take(i + 1).drop_last() == v@.take(i as int));
            assert(v@.take(i + 1).last() == v@[i as int]);
        }
        if v[i] != ',' {
            r.push(v[i]);
        }
        i += 1;
    }
    proof { assert(v@.take(v@.len() as int) == v@); }
    r
}

/// Reads the count that a `vm_stat` line gives under `key`.
pub fn parse_vm_stat_val(line: &[char], key: &str) -> (r: Option<u64>)
    ensures
        match r {
            Some(x) => valor_vm_stat(line@, key@) == Some(x as nat),
            None => valor_vm_stat(line@, key@) is None,
        },
{
    let l = aparar(line);
    match tirar_prefixo(&l, key) {
        Some(resto) => {
            let sem_pontos = tirar_pontos_finais(&resto);
            let ws = separar_palavras(&sem_pontos);
            if ws.len() > 0 {
                proof { assert(ws@[0]@ == palavras(sem_pontos@)[0]); }
                let numero = tirar_virgulas(&ws[0]);
                analisar_u64(&numero)
            } else {
                None
            }
        },
        None => None,
    }
}

/// The page counts of `vm_stat` that the breakdown is made of.
#[derive(Debug, PartialEq, Eq)]
pub enum CampoVmStat {
    Ativas,
    Fixas,
    Comprimidas,
    Inativas,
    Purgaveis,
}

/// The field that a `vm_stat` line fills, and its count: the keys are tried in this order and
/// the first that reads a count wins.
pub open spec fn leitura_vm_stat(l: Seq<char>) -> Option<(CampoVmStat, nat)> {
    match valor_vm_stat(l, "Pages active:"@) {
        Some(v) => Some((CampoVmStat::Ativas, v)),
        None => match valor_vm_stat(l, "Pages wired down:"@) {
            Some(v) => Some((CampoVmStat::Fixas, v)),
            None => match valor_vm_stat(l, "Pages occupied by compressor:"@) {
                Some(v) => Some((CampoVmStat::Comprimidas, v)),
                None => match valor_vm_stat(l, "Pages inactive:"@) {
                    Some(v) => Some((CampoVmStat::Inativas, v)),
                    None => match valor_vm_stat(l, "Pages purgeable:"@) {
                        Some(v) => Some((CampoVmStat::Purgaveis, v)),
                        None => None,
                    },
                },
            },
        },
    }
}

/// The count for `campo` that the last line filling it gives, if any line does.
pub open spec fn ultimo_valor(ls: Seq<Seq<char>>, campo: CampoVmStat) -> Option<nat>
    decreases ls.len(),
{
    if ls.len() == 0 {
        None
    } else {
        match leitura_vm_stat(ls.last()) {
            Some((c, v)) if c == campo => Some(v),
            _ => ultimo_valor(ls.drop_last(), campo),
        }
    }
}

/// The count for `campo` in `vm_stat` output made of the lines `ls`: that of its last line,
/// or 0.
pub open spec fn paginas_do_campo(ls: Seq<Seq<char>>, campo: CampoVmStat) -> nat {
    match ultimo_valor(ls, campo) {
        Some(v) => v,
        None => 0,
    }
}

/// The page size that the first line of `vm_stat` output gives: after its first `(`, the
/// fourth word, read as a `u64`.
pub open spec fn tamanho_de_pagina(s: Seq<char>) -> Option<nat> {
    let ls = linhas(s);
    if ls.len() == 0 {
        None
    } else {
        match segundo_pedaco(ls[0], seq!['(']) {
            Some(x) => {
                let ws = palavras(x);
                if ws.len() > 3 {
                    numero_ate(ws[3], u64::MAX as nat)
                } else {
                    None
                }
            },
            None => None,
        }
    }
}

/// Reads which field a `vm_stat` line fills, and its count.
pub fn ler_linha_vm_stat(line: &[char]) -> (r: Option<(CampoVmStat, u64)>)
    ensures
        match r {
            Some((c, v)) => leitura_vm_stat(line@) == Some((c, v as nat)),
            None => leitura_vm_stat(line@) is None,
        },
{
    if let Some(v) = parse_vm_stat_val(line, "Pages active:") {
        Some((CampoVmStat::Ativas, v))
    } else if let Some(v) = parse_vm_stat_val(line, "Pages wired down:") {
        Some((CampoVmStat::Fixas, v))
    } else if let Some(v) = parse_vm_stat_val(line, "Pages occupied by compressor:") {
        Some((CampoVmStat::Comprimidas, v))
    } else if let Some(v) = parse_vm_stat_val(line, "Pages inactive:") {
        Some((CampoVmStat::Inativas, v))
    } else if let Some(v) = parse_vm_stat_val(line, "Pages purgeable:") {
        Some((CampoVmStat::Purgaveis, v))
    } else {
        None
    }
}

/// The page size and page counts that `vm_stat` output gives.
#[derive(Debug, PartialEq, Eq)]
pub struct PaginasVmStat {
    pub tamanho_pagina: u64,
    pub ativas: u64,
    pub fixas: u64,
    pub comprimidas: u64,
    pub inativas: u64,
    pub purgaveis: u64,
}

/// What `vm_stat` output `s` gives: none without a page size on its first line; else the
/// page size and, for each field, the count of the last line that fills it (0 when none does).
pub open spec fn paginas_vm_stat(s: Seq<char>) -> Option<PaginasVmStat> {
    let ls = linhas(s);
    match tamanho_de_pagina(s) {
        Some(t) => Some(PaginasVmStat {
            tamanho_pagina: t as u64,
            ativas: paginas_do_campo(ls, CampoVmStat::Ativas) as u64,
            fixas: paginas_do_campo(ls, CampoVmStat::Fixas) as u64,
            comprimidas: paginas_do_campo(ls, CampoVmStat::Comprimidas) as u64,
            inativas: paginas_do_campo(ls, CampoVmStat::Inativas) as u64,
            purgaveis: paginas_do_campo(ls, CampoVmStat::Purgaveis) as u64,
        }),
        None => None,
    }
}

proof fn lemma_ultimo_valor_passo(ls: Seq<Seq<char>>, i: int, campo: CampoVmStat)
    requires
        0 <= i < ls.len(),
    ensures
        ultimo_valor(ls.take(i + 1), campo) == (match leitura_vm_stat(ls[i]) {
            Some((c, v)) => if c == campo {
                Some(v)
            } else {
                ultimo_valor(ls.take(i), campo)
            },
            None => ultimo_valor(ls.take(i), campo),
        }),
{
    assert(ls.take(i + 1).drop_last() == ls.take(i));
    assert(ls.take(i + 1).last() == ls[i]);
}

/// Reads the page size and page counts out of `vm_stat` output.
pub fn ler_paginas_vm_stat(saida: &str) -> (r: Option<PaginasVmStat>)
    ensures
        r == paginas_vm_stat(saida@),
{
    let v = caracteres(saida);
    let ls = separar_linhas(&v);
    let ghost lv = linhas(saida@);
    if ls.len() == 0 {
        return None;
    }
    let abre = vec!['('];
    proof { assert(abre@ == seq!['(']); }
    let tamanho = match segundo_pedaco_de(&ls[0], &abre) {
        Some(x) => {
            let ws = separar_palavras(&x);
            if ws.len() > 3 {
                proof { assert(ws@[3]@ == palavras(x@)[3]); }
                analisar_u64(&ws[3])
            } else {
                None
            }
        },
        None => None,
    };
    let tamanho_pagina = match tamanho {
        Some(t) => t,
        None => return None,
    };
    let mut ativas: u64 = 0;
    let mut fixas: u64 = 0;
    let mut comprimidas: u64 = 0;
    let mut inativas: u64 = 0;
    let mut purgaveis: u64 = 0;
    let mut i: usize = 0;
    while i < ls.len()
        invariant
            i <= ls@.len(),
            vistas(ls@) == lv,
            ativas == paginas_do_campo(lv.take(i as int), CampoVmStat::Ativas),
            fixas == paginas_do_campo(lv.take(i as int), CampoVmStat::Fixas),
            comprimidas == paginas_do_campo(lv.take(i as int), CampoVmStat::Comprimidas),
            inativas == paginas_do_campo(lv.take(i as int), CampoVmStat::Inativas),
            purgaveis == paginas_do_campo(lv.take(i as int), CampoVmStat::Purgaveis),
        decreases ls.len() - i,
    {
        proof {
            assert(lv[i as int] == ls@[i as int]@);
            lemma_ultimo_valor_passo(lv, i as int, CampoVmStat::Ativas);
            lemma_ultimo_valor_passo(lv, i as int, CampoVmStat::Fixas);
            lemma_ultimo_valor_passo(lv, i as int, CampoVmStat::Comprimidas);
            lemma_ultimo_valor_passo(lv, i as int, CampoVmStat::Inativas);
            lemma_ultimo_valor_passo(lv, i as int, CampoVmStat::Purgaveis);
        }
        match ler_linha_vm_stat(&ls[i]) {
            Some((CampoVmStat::Ativas, x)) => { ativas = x; },
            Some((CampoVmStat::Fixas, x)) => { fixas = x; },
            Some((CampoVmStat::Comprimidas, x)) => { comprimidas = x; },
            Some((CampoVmStat::Inativas, x)) => { inativas = x; },
            Some((CampoVmStat::Purgaveis, x)) => { purgaveis = x; },
            None => {},
        }
        i += 1;
    }
    proof { assert(lv.take(ls@.len() as int) == lv); }
    Some(PaginasVmStat { tamanho_pagina, ativas, fixas, comprimidas, inativas, purgaveis })
}

/// The byte counts of `p` fit in a `u64`.
pub open spec fn cabe(p: PaginasVmStat) -> bool {
    &&& p.ativas * p.tamanho_pagina <= u64::MAX
    &&& p.fixas * p.tamanho_pagina <= u64::MAX
    &&& p.comprimidas * p.tamanho_pagina <= u64::MAX
    &&& p.inativas + p.purgaveis <= u64::MAX
    &&& (p.inativas + p.purgaveis) * p.tamanho_pagina <= u64::MAX
}

/// The breakdown that the page counts `p` give, in bytes.
pub open spec fn breakdown_de(p: PaginasVmStat) -> MemBreakdown {
    MemBreakdown {
        app_memory: (p.ativas * p.tamanho_pagina) as u64,
        wired_memory: (p.fixas * p.tamanho_pagina) as u64,
        compressed_memory: (p.comprimidas * p.tamanho_pagina) as u64,
        cached_memory: ((p.inativas + p.purgaveis) * p.tamanho_pagina) as u64,
    }
}

/// Whether the byte counts of `p` fit in a `u64`.
pub fn paginas_cabem(p: &PaginasVmStat) -> (r: bool)
    ensures
        r == cabe(*p),
{
    let t = p.tamanho_pagina;
    match (p.ativas.checked_mul(t), p.fixas.checked_mul(t), p.comprimidas.checked_mul(t)) {
        (Some(_), Some(_), Some(_)) => match p.inativas.checked_add(p.purgaveis) {
            Some(c) => c.checked_mul(t).is_some(),
            None => false,
        },
        _ => false,
    }
}

/// The memory breakdown that the `vm_stat` output gives, when there is any (`None` where the
/// command could not be run, as on systems other than macOS): none when its first line holds
/// no page size; else app memory from the active pages, wired from the wired-down pages,
/// compressed from the pages occupied by the compressor, and cached from the inactive and
/// purgeable pages, each times the page size.
pub fn coletar_breakdown(saida_vm_stat: Option<&str>) -> (r: Option<MemBreakdown>)
    requires
        match saida_vm_stat {
            Some(s) => match paginas_vm_stat(s@) {
                Some(p) => cabe(p),
                None => true,
            },
            None => true,
        },
    ensures
        r == (match saida_vm_stat {
            Some(s) => match paginas_vm_stat(s@) {
                Some(p) => Some(breakdown_de(p)),
                None => None,
            },
            None => None,
        }),
{
    let s = match saida_vm_stat {
        Some(s) => s,
        None => return None,
    };
    let p = match ler_paginas_vm_stat(s) {
        Some(p) => p,
        None => return None,
    };
    let t = p.tamanho_pagina;
    Some(MemBreakdown {
        app_memory: p.ativas * t,
        wired_memory: p.fixas * t,
        compressed_memory: p.comprimidas * t,
        cached_memory: (p.inativas + p.purgaveis) * t,
    })
}


/// The `vm_stat` line for a count: the key, a space, the count in decimal and a dot.
pub open spec fn linha_vm_stat(key: Seq<char>, n: nat) -> Seq<char> {
    key + seq![' '] + decimal(n) + seq!['.']
}

proof fn lemma_sem_virgulas_digitos(d: Seq<char>)
    requires
        todos_digitos(d),
    ensures
        sem_virgulas(d) == d,
    decreases d.len(),
{
    if d.len() > 0 {
        assert(eh_digito(d[d.len() - 1]));
        assert(todos_digitos(d.drop_last())) by {
            assert forall|i: int| 0 <= i < d.drop_last().len() implies eh_digito(#[trigger] d.drop_last()[i]) by {
                assert(d.drop_last()[i] == d[i]);
            }
        }
        lemma_sem_virgulas_digitos(d.drop_last());
        assert(d.drop_last().push(d.last()) =~= d);
    }
}

proof fn lemma_valor_da_linha(key: Seq<char>, n: nat)
    requires
        key.len() > 0,
        !eh_espaco(key[0]),
        n <= u64::MAX,
    ensures
        valor_vm_stat(linha_vm_stat(key, n), key) == Some(n),
{
    let d = decimal(n);
    let l = linha_vm_stat(key, n);
    lemma_decimal_le(n);
    assert(l[0] == key[0]);
    assert(l.last() == '.');
    lemma_apara_sem_espacos_nas_pontas(l);
    let resto = seq![' '] + d + seq!['.'];
    assert(l =~= key + resto);
    lemma_sem_prefixo_junta(key, resto);
    assert(resto.last() == '.');
    assert(resto.drop_last() =~= seq![' '] + d);
    assert(eh_digito(d[d.len() - 1]));
    assert((seq![' '] + d).last() == d.last());
    assert(d.last() != '.');
    assert(sem_pontos_finais(seq![' '] + d) == seq![' '] + d);
    assert(sem_pontos_finais(resto) == sem_pontos_finais(resto.drop_last()));
    assert(sem_pontos_finais(resto) == seq![' '] + d);
    assert forall|i: int| 0 <= i < d.len() implies !eh_espaco(#[trigger] d[i]) by {
        assert(eh_digito(d[i]));
    }
    lemma_palavra_unica(d);
    lemma_sem_virgulas_digitos(d);
    lemma_numero_do_decimal(n, u64::MAX as nat);
}

proof fn lemma_outra_chave(key: Seq<char>, outra: Seq<char>, n: nat)
    requires
        key.len() > 6,
        outra.len() > 6,
        key[6] != outra[6],
        !eh_espaco(key[0]),
    ensures
        valor_vm_stat(linha_vm_stat(key, n), outra) is None,
{
    let l = linha_vm_stat(key, n);
    assert(l[0] == key[0] && l[6] == key[6]);
    lemma_decimal_le(n);
    assert(l.last() == '.');
    lemma_apara_sem_espacos_nas_pontas(l);
    if comeca_com(l, outra) {
        assert(l.subrange(0, outra.len() as int)[6] == l[6]);
    }
}

/// Each of the five counts of the breakdown is read from its own `vm_stat` line: the line
/// `Pages active: n.` gives `n` active pages, `Pages wired down: n.` `n` wired pages,
/// `Pages occupied by compressor: n.` `n` compressed pages, `Pages inactive: n.` `n` inactive
/// pages and `Pages purgeable: n.` `n` purgeable pages, for any count that fits a `u64`.
pub proof fn lei_linhas_vm_stat(n: nat)
    requires
        n <= u64::MAX,
    ensures
        leitura_vm_stat(linha_vm_stat("Pages active:"@, n)) == Some((CampoVmStat::Ativas, n)),
        leitura_vm_stat(linha_vm_stat("Pages wired down:"@, n)) == Some((CampoVmStat::Fixas, n)),
        leitura_vm_stat(linha_vm_stat("Pages occupied by compressor:"@, n)) == Some((CampoVmStat::Comprimidas, n)),
        leitura_vm_stat(linha_vm_stat("Pages inactive:"@, n)) == Some((CampoVmStat::Inativas, n)),
        leitura_vm_stat(linha_vm_stat("Pages purgeable:"@, n)) == Some((CampoVmStat::Purgaveis, n)),
{
    reveal_strlit("Pages active:");
    assert("Pages active:"@.len() > 6 && "Pages active:"@[0] == 'P' && "Pages active:"@[6] == 'a');
    reveal_strlit("Pages wired down:");
    assert("Pages wired down:"@.len() > 6 && "Pages wired down:"@[0] == 'P' && "Pages wired down:"@[6] == 'w');
    reveal_strlit("Pages occupied by compressor:");
    assert("Pages occupied by compressor:"@.len() > 6 && "Pages occupied by compressor:"@[0] == 'P' && "Pages occupied by compressor:"@[6] == 'o');
    reveal_strlit("Pages inactive:");
    assert("Pages inactive:"@.len() > 6 && "Pages inactive:"@[0] == 'P' && "Pages inactive:"@[6] == 'i');
    reveal_strlit("Pages purgeable:");
    assert("Pages purgeable:"@.len() > 6 && "Pages purgeable:"@[0] == 'P' && "Pages purgeable:"@[6] == 'p');
    lemma_valor_da_linha("Pages active:"@, n);
    lemma_valor_da_linha("Pages wired down:"@, n);
    lemma_outra_chave("Pages wired down:"@, "Pages active:"@, n);
    lemma_valor_da_linha("Pages occupied by compressor:"@, n);
    lemma_outra_chave("Pages occupied by compressor:"@, "Pages active:"@, n);
    lemma_outra_chave("Pages occupied by compressor:"@, "Pages wired down:"@, n);
    lemma_valor_da_linha("Pages inactive:"@, n);
    lemma_outra_chave("Pages inactive:"@, "Pages active:"@, n);
    lemma_outra_chave("Pages inactive:"@, "Pages wired down:"@, n);
    lemma_outra_chave("Pages inactive:"@, "Pages occupied by compressor:"@, n);
    lemma_valor_da_linha("Pages purgeable:"@, n);
    lemma_outra_chave("Pages purgeable:"@, "Pages active:"@, n);
    lemma_outra_chave("Pages purgeable:"@, "Pages wired down:"@, n);
    lemma_outra_chave("Pages purgeable:"@, "Pages occupied by compressor:"@, n);
    lemma_outra_chave("Pages purgeable:"@, "Pages inactive:"@, n);
}

} // verus!
