use vstd::prelude::*;

use crate::selecao::{eh_selecao_dos_maiores, selecionar_maiores};
use crate::texto::{
    analisar_u32, apara, aparar, caracteres, contem, contem_str, divide, dividir, minusculas, numero_ate,
    para_minusculas, str_igual, texto_ou_vazio, vistas, decimal, eh_digito, eh_espaco, lemma_decimal_le,
    lemma_numero_do_decimal, lemma_apara_sem_espacos_nas_pontas, lemma_divide_junta, lemma_divide_sem_separador,
    apara_inicio, apara_fim,
};
use crate::models::hardware::{DiskUsage, NetworkUsage};

verus! {

/// How many processes the hardware page lists.
pub const PROCESS_LIMIT: usize = 15;

/// One running process, as plain values: its id, the name it is listed under, and its
/// resident memory in bytes.
#[derive(Debug, PartialEq, Eq)]
pub struct AmostraProcesso {
    pub pid: u32,
    pub name: String,
    pub memory: u64,
}

/// The processes that share a name: the id of the first, the largest memory among them, and
/// the positions of all of them in the list they came from.
#[derive(Debug, PartialEq, Eq)]
pub struct GrupoProcessos {
    pub pid: u32,
    pub name: String,
    pub memory_usage: u64,
    pub membros: Vec<usize>,
}

/// The names of `s`, each once, in the order of their first process.
pub open spec fn nomes_amostras(s: Seq<AmostraProcesso>) -> Seq<Seq<char>>
    decreases s.len(),
{
    if s.len() == 0 {
        seq![]
    } else {
        let p = nomes_amostras(s.drop_last());
        let n = s.last().name@;
        if p.contains(n) {
            p
        } else {
            p.push(n)
        }
    }
}

/// The positions of the processes named `n`, in order.
pub open spec fn posicoes_do_nome(s: Seq<AmostraProcesso>, n: Seq<char>) -> Seq<usize>
    decreases s.len(),
{
    if s.len() == 0 {
        seq![]
    } else {
        let p = posicoes_do_nome(s.drop_last(), n);
        if s.last().name@ == n {
            p.push((s.len() - 1) as usize)
        } else {
            p
        }
    }
}

/// The largest memory among the processes named `n` (0 when there is none).
pub open spec fn memoria_maxima(s: Seq<AmostraProcesso>, n: Seq<char>) -> nat
    decreases s.len(),
{
    if s.len() == 0 {
        0
    } else {
        let m = memoria_maxima(s.drop_last(), n);
        if s.last().name@ == n && s.last().memory > m {
            s.last().memory as nat
        } else {
            m
        }
    }
}

pub proof fn lemma_nomes_amostras(s: Seq<AmostraProcesso>)
    ensures
        forall|i: int, j: int|
            0 <= i < j < nomes_amostras(s).len() ==> nomes_amostras(s)[i] != nomes_amostras(s)[j],
    decreases s.len(),
{
    if s.len() > 0 {
        lemma_nomes_amostras(s.drop_last());
        let p = nomes_amostras(s.drop_last());
        let n = s.last().name@;
        if !p.contains(n) {
            assert forall|i: int, j: int| 0 <= i < j < p.push(n).len() implies p.push(n)[i] != p.push(n)[j] by {
                if j == p.len() {
                    assert(p[i] == p.push(n)[i]);
                }
            }
        }
    }
}

pub proof fn lemma_nome_ausente(s: Seq<AmostraProcesso>, n: Seq<char>)
    requires
        !nomes_amostras(s).contains(n),
    ensures
        posicoes_do_nome(s, n) == Seq::<usize>::empty(),
        memoria_maxima(s, n) == 0,
    decreases s.len(),
{
    if s.len() > 0 {
        let p = nomes_amostras(s.drop_last());
        let u = s.last().name@;
        if p.contains(n) {
            let k = choose|k: int| 0 <= k < p.len() && p[k] == n;
            if !p.contains(u) {
                assert(nomes_amostras(s)[k] == n);
            }
        }
        if p.contains(u) {
            let k = choose|k: int| 0 <= k < p.len() && p[k] == u;
            assert(nomes_amostras(s)[k] == u);
        } else {
            assert(nomes_amostras(s)[p.len() as int] == u);
        }
        lemma_nome_ausente(s.drop_last(), n);
    }
}

pub proof fn lemma_posicoes_limite(s: Seq<AmostraProcesso>, n: Seq<char>)
    requires
        s.len() <= usize::MAX,
    ensures
        forall|i: int| 0 <= i < posicoes_do_nome(s, n).len() ==> posicoes_do_nome(s, n)[i] < s.len(),
        memoria_maxima(s, n) <= u64::MAX,
    decreases s.len(),
{
    if s.len() > 0 {
        lemma_posicoes_limite(s.drop_last(), n);
        let p = posicoes_do_nome(s.drop_last(), n);
        if s.last().name@ == n {
            let q = p.push((s.len() - 1) as usize);
            assert forall|i: int| 0 <= i < q.len() implies #[trigger] q[i] < s.len() by {
                if i < p.len() {
                    assert(q[i] == p[i]);
                }
            }
        }
    }
}

/// `g` describes the processes of `s` named as it is.
pub open spec fn grupo_de(s: Seq<AmostraProcesso>, g: GrupoProcessos) -> bool {
    &&& g.membros@ == posicoes_do_nome(s, g.name@)
    &&& g.membros@.len() > 0
    &&& g.pid == s[g.membros@[0] as int].pid
    &&& g.memory_usage == memoria_maxima(s, g.name@)
}

/// `r` lists the (at most `PROCESS_LIMIT`) names of `s` whose processes take the most memory,
/// most first, each name once with its group; every name left out takes no more memory than
/// any name listed.
pub open spec fn eh_top_memoria(s: Seq<AmostraProcesso>, r: Seq<GrupoProcessos>) -> bool {
    let nomes = nomes_amostras(s);
    &&& r.len() == (if nomes.len() < PROCESS_LIMIT { nomes.len() } else { PROCESS_LIMIT as nat })
    &&& forall|i: int| #![trigger r[i]] 0 <= i < r.len() ==> nomes.contains(r[i].name@) && grupo_de(s, r[i])
    &&& forall|i: int, j: int| 0 <= i < j < r.len() ==> r[i].name@ != r[j].name@
    &&& forall|i: int, j: int| 0 <= i < j < r.len() ==> r[i].memory_usage >= r[j].memory_usage
    &&& forall|n: Seq<char>, i: int|
        #![trigger nomes.contains(n), r[i]]
        nomes.contains(n) && (forall|k: int| 0 <= k < r.len() ==> r[k].name@ != n) && 0 <= i < r.len()
            ==> memoria_maxima(s, n) <= r[i].memory_usage
}

fn copiar_posicoes(v: &Vec<usize>) -> (r: Vec<usize>)
    ensures
        r@ == v@,
{
    let mut r: Vec<usize> = Vec::new();
    let mut i: usize = 0;
    while i < v.len()
        invariant
            i <= v@.len(),
            r@ == v@.take(i as int),
        decreases v.len() - i,
    {
        r.push(v[i]);
        proof { assert(v@.take(i + 1) == v@.take(i as int).push(v@[i as int])); }
        i += 1;
    }
    proof { assert(v@.take(i as int) == v@); }
    r
}

/// Groups the processes by name (the first process gives the id, memory is the largest of the
/// group) and keeps the `PROCESS_LIMIT` groups that take the most memory, most first.
pub fn agrupar_processos(amostras: &Vec<AmostraProcesso>) -> (r: Vec<GrupoProcessos>)
    ensures
        eh_top_memoria(amostras@, r@),
{
    let mut grupos: Vec<GrupoProcessos> = Vec::new();
    let mut i: usize = 0;
    while i < amostras.len()
        invariant
            i <= amostras@.len(),
            grupos@.len() == nomes_amostras(amostras@.take(i as int)).len(),
            forall|g: int|
                #![trigger grupos@[g]]
                0 <= g < grupos@.len() ==> grupos@[g].name@ == nomes_amostras(amostras@.take(i as int))[g]
                    && grupo_de(amostras@.take(i as int), grupos@[g]),
        decreases amostras.len() - i,
    {
        let a = &amostras[i];
        let ghost t = amostras@.take(i as int);
        let ghost t2 = amostras@.take(i + 1);
        let ghost nome = a.name@;
        proof {
            assert(t2.drop_last() == t);
            assert(t2.last() == *a);
            lemma_nomes_amostras(t);
        }
        let mut g: usize = 0;
        while g < grupos.len() && !str_igual(grupos[g].name.as_str(), a.name.as_str())
            invariant
                g <= grupos@.len(),
                nome == a.name@,
                forall|h: int| 0 <= h < g ==> grupos@[h].name@ != nome,
            decreases grupos.len() - g,
        {
            g += 1;
        }
        if g < grupos.len() {
            let atual = &grupos[g];
            let mut membros = copiar_posicoes(&atual.membros);
            membros.push(i);
            let memoria = if a.memory > atual.memory_usage { a.memory } else { atual.memory_usage };
            proof {
                assert(nomes_amostras(t)[g as int] == nome);
                assert(nomes_amostras(t).contains(nome));
                assert(nomes_amostras(t2) == nomes_amostras(t));
            }
            let novo = GrupoProcessos { pid: atual.pid, name: atual.name.clone(), memory_usage: memoria, membros };
            let ghost antes = grupos@;
            grupos.set(g, novo);
            proof {
                assert forall|h: int|
                    #![trigger grupos@[h]]
                    0 <= h < grupos@.len() implies grupos@[h].name@ == nomes_amostras(t2)[h] && grupo_de(t2, grupos@[h]) by {
                    let n = nomes_amostras(t2)[h];
                    assert(t2[antes[h].membros@[0] as int] == t[antes[h].membros@[0] as int]) by {
                        lemma_posicoes_limite(t, antes[h].name@);
                    }
                    if h != g {
                        assert(antes[h] == grupos@[h]);
                        assert(n != nome);
                    } else {
                        assert(grupos@[h].membros@[0] == antes[h].membros@[0]);
                    }
                }
            }
        } else {
            proof {
                assert(!nomes_amostras(t).contains(nome)) by {
                    if nomes_amostras(t).contains(nome) {
                        let h = choose|h: int| 0 <= h < nomes_amostras(t).len() && nomes_amostras(t)[h] == nome;
                        assert(grupos@[h].name@ == nome);
                    }
                }
                assert(nomes_amostras(t2) == nomes_amostras(t).push(nome));
                lemma_nome_ausente(t, nome);
            }
            let mut membros: Vec<usize> = Vec::new();
            membros.push(i);
            let novo = GrupoProcessos { pid: a.pid, name: a.name.clone(), memory_usage: a.memory, membros };
            let ghost antes = grupos@;
            grupos.push(novo);
            proof {
                assert(posicoes_do_nome(t2, nome) =~= seq![i]);
                assert forall|h: int|
                    #![trigger grupos@[h]]
                    0 <= h < grupos@.len() implies grupos@[h].name@ == nomes_amostras(t2)[h] && grupo_de(t2, grupos@[h]) by {
                    if h < antes.len() {
                        assert(antes[h] == grupos@[h]);
                        assert(nomes_amostras(t)[h] != nome);
                        assert(t2[antes[h].membros@[0] as int] == t[antes[h].membros@[0] as int]) by {
                            lemma_posicoes_limite(t, antes[h].name@);
                        }
                    }
                }
            }
        }
        i += 1;
    }
    let ghost s = amostras@;
    proof {
        assert(amostras@.take(amostras@.len() as int) == s);
        lemma_nomes_amostras(s);
    }
    let mut chaves: Vec<u64> = Vec::new();
    let mut k: usize = 0;
    while k < grupos.len()
        invariant
            k <= grupos@.len(),
            chaves@.len() == k,
            forall|h: int| 0 <= h < k ==> chaves@[h] == grupos@[h].memory_usage,
        decreases grupos.len() - k,
    {
        chaves.push(grupos[k].memory_usage);
        k += 1;
    }
    let idx = selecionar_maiores(&chaves, PROCESS_LIMIT);
    let mut r: Vec<GrupoProcessos> = Vec::new();
    let mut m: usize = 0;
    while m < idx.len()
        invariant
            eh_selecao_dos_maiores(chaves@, PROCESS_LIMIT as nat, idx@),
            chaves@.len() == grupos@.len(),
            forall|h: int| 0 <= h < grupos@.len() ==> chaves@[h] == grupos@[h].memory_usage,
            m <= idx@.len(),
            r@.len() == m,
            forall|q: int| 0 <= q < m ==> {
                &&& r@[q].name@ == grupos@[idx@[q] as int].name@
                &&& r@[q].pid == grupos@[idx@[q] as int].pid
                &&& r@[q].memory_usage == grupos@[idx@[q] as int].memory_usage
                &&& r@[q].membros@ == grupos@[idx@[q] as int].membros@
            },
        decreases idx.len() - m,
    {
        let gr = &grupos[idx[m]];
        r.push(GrupoProcessos {
            pid: gr.pid,
            name: gr.name.clone(),
            memory_usage: gr.memory_usage,
            membros: copiar_posicoes(&gr.membros),
        });
        m += 1;
    }
    proof {
        let nomes = nomes_amostras(s);
        assert forall|i: int| #![trigger r@[i]] 0 <= i < r@.len() implies nomes.contains(r@[i].name@) && grupo_de(s, r@[i]) by {
            let h = idx@[i] as int;
            assert(grupos@[h].name@ == nomes[h]);
        }
        assert forall|i: int, j: int| 0 <= i < j < r@.len() implies r@[i].name@ != r@[j].name@ by {
            assert(grupos@[idx@[i] as int].name@ == nomes[idx@[i] as int]);
            assert(grupos@[idx@[j] as int].name@ == nomes[idx@[j] as int]);
        }
        assert forall|i: int, j: int| 0 <= i < j < r@.len() implies r@[i].memory_usage >= r@[j].memory_usage by {
            assert(chaves@[idx@[i] as int] >= chaves@[idx@[j] as int]);
        }
        assert forall|n: Seq<char>, i: int|
            #![trigger nomes.contains(n), r@[i]]
            nomes.contains(n) && (forall|k: int| 0 <= k < r@.len() ==> r@[k].name@ != n) && 0 <= i < r@.len()
                implies memoria_maxima(s, n) <= r@[i].memory_usage by {
            let h = choose|h: int| 0 <= h < nomes.len() && nomes[h] == n;
            assert(grupos@[h].name@ == n);
            if idx@.contains(h as usize) {
                let q = choose|q: int| 0 <= q < idx@.len() && idx@[q] == h as usize;
                assert(r@[q].name@ == n);
            }
            assert(chaves@[h] <= chaves@[idx@[i] as int]);
        }
    }
    r
}


/// The kind of the CPU at position `i`: the first `p` are performance cores, the next `e`
/// efficiency cores, the rest unknown.
pub open spec fn tipo_nucleo(i: nat, p: u32, e: u32) -> Seq<char> {
    if i < p {
        "performance"@
    } else if i < p + e {
        "efficiency"@
    } else {
        "unknown"@
    }
}

/// What the hardware page shows of one CPU besides its load: its kind and whether it is a
/// physical core.
#[derive(Debug, PartialEq, Eq)]
pub struct ClasseNucleo {
    pub kind: String,
    pub physical: bool,
}

/// Classifies `n` CPUs: kind by position after `p_cores` performance and `e_cores` efficiency
/// cores; physical when the position is below `physical_cores`.
pub fn classificar_nucleos(n: usize, p_cores: u32, e_cores: u32, physical_cores: u32) -> (r: Vec<ClasseNucleo>)
    requires
        p_cores + e_cores <= u32::MAX,
    ensures
        r@.len() == n,
        forall|i: int|
            #![trigger r@[i]]
            0 <= i < n ==> r@[i].kind@ == tipo_nucleo(i as nat, p_cores, e_cores) && r@[i].physical == (i
                < physical_cores),
{
    let mut r: Vec<ClasseNucleo> = Vec::new();
    let mut i: usize = 0;
    while i < n
        invariant
            i <= n,
            p_cores + e_cores <= u32::MAX,
            r@.len() == i,
            forall|k: int|
                #![trigger r@[k]]
                0 <= k < i ==> r@[k].kind@ == tipo_nucleo(k as nat, p_cores, e_cores) && r@[k].physical == (k
                    < physical_cores),
        decreases n - i,
    {
        let kind = if (i as u64) < (p_cores as u64) {
            "performance".to_owned()
        } else if (i as u64) < (p_cores + e_cores) as u64 {
            "efficiency".to_owned()
        } else {
            "unknown".to_owned()
        };
        let physical = (i as u64) < (physical_cores as u64);
        r.push(ClasseNucleo { kind, physical });
        i += 1;
    }
    r
}

/// How many of the names satisfy `f`.
pub open spec fn quantos_nomes(s: Seq<Seq<char>>, f: spec_fn(Seq<char>) -> bool) -> nat
    decreases s.len(),
{
    if s.len() == 0 {
        0
    } else {
        quantos_nomes(s.drop_last(), f) + if f(s.last()) { 1nat } else { 0nat }
    }
}

/// The performance and efficiency core counts: those the system reports when it reports both;
/// else the CPUs whose lowercased names contain `pmp` and `emp`; else all CPUs as performance
/// cores.
pub open spec fn layout_nucleos(p: Option<u32>, e: Option<u32>, nomes: Seq<Seq<char>>) -> (u32, u32) {
    match (p, e) {
        (Some(p), Some(e)) => (p, e),
        _ => {
            let np = quantos_nomes(nomes, |n: Seq<char>| contem(minusculas(n), "pmp"@)) as u32;
            let ne = quantos_nomes(nomes, |n: Seq<char>| contem(minusculas(n), "emp"@)) as u32;
            if np > 0 || ne > 0 {
                (np, ne)
            } else {
                (nomes.len() as u32, 0)
            }
        },
    }
}

pub proof fn lemma_quantos_limite(s: Seq<Seq<char>>, f: spec_fn(Seq<char>) -> bool)
    ensures
        quantos_nomes(s, f) <= s.len(),
    decreases s.len(),
{
    if s.len() > 0 {
        lemma_quantos_limite(s.drop_last(), f);
    }
}

/// Works out the performance and efficiency core counts (`perflevel` counts from the system
/// when both are known, else by CPU names).
pub fn detect_core_layout(p_sistema: Option<u32>, e_sistema: Option<u32>, nomes_cpus: &Vec<String>) -> (r: (u32, u32))
    ensures
        r == layout_nucleos(p_sistema, e_sistema, crate::texto::vistas_textos(nomes_cpus@)),
{
    match (p_sistema, e_sistema) {
        (Some(p), Some(e)) => {
            return (p, e);
        },
        _ => {},
    }
    let ghost nomes = crate::texto::vistas_textos(nomes_cpus@);
    let mut np: usize = 0;
    let mut ne: usize = 0;
    let mut i: usize = 0;
    while i < nomes_cpus.len()
        invariant
            i <= nomes_cpus@.len(),
            nomes == crate::texto::vistas_textos(nomes_cpus@),
            np == quantos_nomes(nomes.take(i as int), |n: Seq<char>| contem(minusculas(n), "pmp"@)),
            ne == quantos_nomes(nomes.take(i as int), |n: Seq<char>| contem(minusculas(n), "emp"@)),
        decreases nomes_cpus.len() - i,
    {
        proof {
            assert(nomes.take(i + 1).drop_last() == nomes.take(i as int));
            assert(nomes.take(i + 1).last() == nomes_cpus@[i as int]@);
            lemma_quantos_limite(nomes.take(i as int), |n: Seq<char>| contem(minusculas(n), "pmp"@));
            lemma_quantos_limite(nomes.take(i as int), |n: Seq<char>| contem(minusculas(n), "emp"@));
        }
        let n = para_minusculas(nomes_cpus[i].as_str());
        let v = caracteres(n.as_str());
        if contem_str(&v, "pmp") {
            np = np + 1;
        }
        if contem_str(&v, "emp") {
            ne = ne + 1;
        }
        i += 1;
    }
    proof { assert(nomes.take(i as int) == nomes); }
    let p = np as u32;
    let e = ne as u32;
    if p > 0 || e > 0 {
        (p, e)
    } else {
        (nomes_cpus.len() as u32, 0)
    }
}

/// The number written after the last `-` of the trimmed contents of
/// `/sys/devices/system/cpu/present` (`0-7` gives 7), when it is a `u32`.
pub open spec fn ultimo_cpu(texto: Seq<char>) -> Option<nat> {
    numero_ate(divide(apara(texto), '-').last(), u32::MAX as nat)
}

/// Reads the highest CPU index in `/sys/devices/system/cpu/present` (Linux).
pub fn ultimo_cpu_presente(texto: &str) -> (r: Option<u32>)
    ensures
        match r {
            Some(x) => ultimo_cpu(texto@) == Some(x as nat),
            None => ultimo_cpu(texto@) is None,
        },
{
    let t = aparar(&caracteres(texto));
    let partes = dividir(&t, '-');
    proof { assert(vistas(partes@).last() == partes@[partes@.len() - 1]@); }
    analisar_u32(&partes[partes.len() - 1])
}

/// The physical and logical core counts: those the system reports when it reports both; else,
/// with the CPU count `cpus`, the highest present CPU index plus one as the logical count when
/// `/sys/devices/system/cpu/present` gives one (Linux); else the CPU count for both.
pub open spec fn contagem_nucleos(
    fisicos: Option<u32>,
    logicos: Option<u32>,
    cpus: u32,
    presentes: Option<Seq<char>>,
) -> (u32, u32) {
    match (fisicos, logicos) {
        (Some(p), Some(l)) => (p, l),
        _ => match presentes {
            Some(t) => match ultimo_cpu(t) {
                Some(m) => (cpus, (m + 1) as u32),
                None => (cpus, cpus),
            },
            None => (cpus, cpus),
        },
    }
}

/// Works out the physical and logical core counts from what the system reports.
pub fn physical_core_count(fisicos: Option<u32>, logicos: Option<u32>, cpus: u32, presentes: Option<&str>) -> (r: (u32, u32))
    requires
        (fisicos is None || logicos is None) ==> match presentes {
            Some(t) => match ultimo_cpu(t@) {
                Some(m) => m + 1 <= u32::MAX,
                None => true,
            },
            None => true,
        },
    ensures
        r == contagem_nucleos(fisicos, logicos, cpus, match presentes {
            Some(t) => Some(t@),
            None => None,
        }),
{
    if let (Some(p), Some(l)) = (fisicos, logicos) {
        return (p, l);
    }
    if let Some(t) = presentes {
        if let Some(m) = ultimo_cpu_presente(t) {
            return (cpus, m + 1);
        }
    }
    (cpus, cpus)
}

/// A thermal zone of the CPU: its trimmed, lowercased type names `cpu`, `x86_pkg` or `acpitz`.
pub open spec fn zona_de_cpu(tipo: Seq<char>) -> bool {
    let k = minusculas(apara(tipo));
    contem(k, "cpu"@) || contem(k, "x86_pkg"@) || contem(k, "acpitz"@)
}

/// Whether a thermal zone (by the contents of its `type` file) measures the CPU (Linux).
pub fn eh_zona_de_cpu(tipo: &str) -> (r: bool)
    ensures
        r == zona_de_cpu(tipo@),
{
    let t = crate::texto::texto_de(&aparar(&caracteres(tipo)));
    let k = para_minusculas(t.as_str());
    let v = caracteres(k.as_str());
    contem_str(&v, "cpu") || contem_str(&v, "x86_pkg") || contem_str(&v, "acpitz")
}

/// One disk's counters, in bytes.
#[derive(Debug, PartialEq, Eq)]
pub struct AmostraDisco {
    pub read_bytes: u64,
    pub written_bytes: u64,
    pub total_space: u64,
    pub available_space: u64,
}

pub open spec fn soma_disco(s: Seq<AmostraDisco>, campo: spec_fn(AmostraDisco) -> u64) -> nat
    decreases s.len(),
{
    if s.len() == 0 {
        0
    } else {
        soma_disco(s.drop_last(), campo) + campo(s.last()) as nat
    }
}

pub proof fn lemma_soma_disco_prefixo(s: Seq<AmostraDisco>, campo: spec_fn(AmostraDisco) -> u64, k: int)
    requires
        0 <= k <= s.len(),
    ensures
        soma_disco(s.take(k), campo) <= soma_disco(s, campo),
    decreases s.len(),
{
    if k < s.len() {
        lemma_soma_disco_prefixo(s.drop_last(), campo, k);
        assert(s.drop_last().take(k) == s.take(k));
    } else {
        assert(s.take(k) == s);
    }
}

/// Sums the counters of all disks.
pub fn somar_discos(discos: &Vec<AmostraDisco>) -> (r: DiskUsage)
    requires
        soma_disco(discos@, |d: AmostraDisco| d.read_bytes) <= u64::MAX,
        soma_disco(discos@, |d: AmostraDisco| d.written_bytes) <= u64::MAX,
        soma_disco(discos@, |d: AmostraDisco| d.total_space) <= u64::MAX,
        soma_disco(discos@, |d: AmostraDisco| d.available_space) <= u64::MAX,
    ensures
        r.read_bytes == soma_disco(discos@, |d: AmostraDisco| d.read_bytes),
        r.write_bytes == soma_disco(discos@, |d: AmostraDisco| d.written_bytes),
        r.total_bytes == soma_disco(discos@, |d: AmostraDisco| d.total_space),
        r.available_bytes == soma_disco(discos@, |d: AmostraDisco| d.available_space),
{
    let ghost s = discos@;
    let mut read: u64 = 0;
    let mut write: u64 = 0;
    let mut total: u64 = 0;
    let mut available: u64 = 0;
    let mut i: usize = 0;
    while i < discos.len()
        invariant
            i <= s.len(),
            s == discos@,
            soma_disco(s, |d: AmostraDisco| d.read_bytes) <= u64::MAX,
            soma_disco(s, |d: AmostraDisco| d.written_bytes) <= u64::MAX,
            soma_disco(s, |d: AmostraDisco| d.total_space) <= u64::MAX,
            soma_disco(s, |d: AmostraDisco| d.available_space) <= u64::MAX,
            read == soma_disco(s.take(i as int), |d: AmostraDisco| d.read_bytes),
            write == soma_disco(s.take(i as int), |d: AmostraDisco| d.written_bytes),
            total == soma_disco(s.take(i as int), |d: AmostraDisco| d.total_space),
            available == soma_disco(s.take(i as int), |d: AmostraDisco| d.available_space),
        decreases discos.len() - i,
    {
        let d = &discos[i];
        proof {
            assert(s.take(i + 1).drop_last() == s.take(i as int));
            assert(s.take(i + 1).last() == *d);
            lemma_soma_disco_prefixo(s, |d: AmostraDisco| d.read_bytes, i + 1);
            lemma_soma_disco_prefixo(s, |d: AmostraDisco| d.written_bytes, i + 1);
            lemma_soma_disco_prefixo(s, |d: AmostraDisco| d.total_space, i + 1);
            lemma_soma_disco_prefixo(s, |d: AmostraDisco| d.available_space, i + 1);
        }
        read = read + d.read_bytes;
        write = write + d.written_bytes;
        total = total + d.total_space;
        available = available + d.available_space;
        i += 1;
    }
    proof { assert(s.take(i as int) == s); }
    DiskUsage { read_bytes: read, write_bytes: write, total_bytes: total, available_bytes: available }
}

pub open spec fn soma_pares(s: Seq<(u64, u64)>, primeiro: bool) -> nat
    decreases s.len(),
{
    if s.len() == 0 {
        0
    } else {
        soma_pares(s.drop_last(), primeiro) + if primeiro { s.last().0 as nat } else { s.last().1 as nat }
    }
}

pub proof fn lemma_soma_pares_prefixo(s: Seq<(u64, u64)>, primeiro: bool, k: int)
    requires
        0 <= k <= s.len(),
    ensures
        soma_pares(s.take(k), primeiro) <= soma_pares(s, primeiro),
    decreases s.len(),
{
    if k < s.len() {
        lemma_soma_pares_prefixo(s.drop_last(), primeiro, k);
        assert(s.drop_last().take(k) == s.take(k));
    } else {
        assert(s.take(k) == s);
    }
}

/// Sums the bytes received and transmitted (in that order in each pair) over all interfaces.
pub fn somar_redes(redes: &Vec<(u64, u64)>) -> (r: NetworkUsage)
    requires
        soma_pares(redes@, true) <= u64::MAX,
        soma_pares(redes@, false) <= u64::MAX,
    ensures
        r.received_bytes == soma_pares(redes@, true),
        r.transmitted_bytes == soma_pares(redes@, false),
{
    let ghost s = redes@;
    let mut received: u64 = 0;
    let mut transmitted: u64 = 0;
    let mut i: usize = 0;
    while i < redes.len()
        invariant
            i <= s.len(),
            s == redes@,
            soma_pares(s, true) <= u64::MAX,
            soma_pares(s, false) <= u64::MAX,
            received == soma_pares(s.take(i as int), true),
            transmitted == soma_pares(s.take(i as int), false),
        decreases redes.len() - i,
    {
        let (rx, tx) = redes[i];
        proof {
            assert(s.take(i + 1).drop_last() == s.take(i as int));
            assert(s.take(i + 1).last() == (rx, tx));
            lemma_soma_pares_prefixo(s, true, i + 1);
            lemma_soma_pares_prefixo(s, false, i + 1);
        }
        received = received + rx;
        transmitted = transmitted + tx;
        i += 1;
    }
    proof { assert(s.take(i as int) == s); }
    NetworkUsage { received_bytes: received, transmitted_bytes: transmitted }
}

/// Hyperthreading: more logical CPUs than physical cores.
pub fn tem_hyperthreading(logicos: u32, fisicos: u32) -> (r: bool)
    ensures
        r == (logicos > fisicos),
{
    logicos > fisicos
}

/// One entry of the display list that `system_profiler SPDisplaysDataType -json` prints: the
/// strings it holds under `sppci_bus`, `sppci_model`, `spdisplays_vendor` and `sppci_cores`
/// (`None` where a key is missing or holds no string).
#[derive(Debug, PartialEq, Eq)]
pub struct EntradaGpu {
    pub bus: Option<String>,
    pub model: Option<String>,
    pub vendor: Option<String>,
    pub cores: Option<String>,
}

/// The GPU that the display list describes, temperature aside.
#[derive(Debug, PartialEq, Eq)]
pub struct GpuEscolhida {
    pub model: String,
    pub vendor: String,
    pub integrated: bool,
    pub cores: u32,
}


/// The entry names a model.
pub open spec fn tem_modelo(e: EntradaGpu) -> bool {
    texto_ou_vazio(e.model).len() > 0
}

/// `i` is the first entry that names a model.
pub open spec fn primeira_com_modelo(s: Seq<EntradaGpu>, i: int) -> bool {
    &&& 0 <= i < s.len()
    &&& tem_modelo(s[i])
    &&& forall|j: int| 0 <= j < i ==> !tem_modelo(#[trigger] s[j])
}

/// The GPU that the entry `e` describes: built in when its bus is `spdisplays_builtin`; its
/// core count read as a `u32` (a missing count reads as `0`, one that is no `u32` gives 0).
pub open spec fn gpu_da_entrada(e: EntradaGpu, g: GpuEscolhida) -> bool {
    &&& g.model@ == texto_ou_vazio(e.model)
    &&& g.vendor@ == texto_ou_vazio(e.vendor)
    &&& g.integrated == (texto_ou_vazio(e.bus) == "spdisplays_builtin"@)
    &&& g.cores as nat == (match e.cores {
        Some(c) => match numero_ate(c@, u32::MAX as nat) {
            Some(n) => n,
            None => 0,
        },
        None => 0,
    })
}

/// The GPU that the display list describes: its first entry that names a model, if any does.
pub fn detect_macos_gpu(entradas: &Vec<EntradaGpu>) -> (r: Option<GpuEscolhida>)
    ensures
        match r {
            Some(g) => exists|i: int| primeira_com_modelo(entradas@, i) && gpu_da_entrada(entradas@[i], g),
            None => forall|j: int| 0 <= j < entradas@.len() ==> !tem_modelo(#[trigger] entradas@[j]),
        },
{
    let mut i: usize = 0;
    while i < entradas.len()
        invariant
            i <= entradas@.len(),
            forall|j: int| 0 <= j < i ==> !tem_modelo(#[trigger] entradas@[j]),
        decreases entradas.len() - i,
    {
        let e = &entradas[i];
        let model = match &e.model {
            Some(m) => m.clone(),
            None => String::new(),
        };
        if model.unicode_len() > 0 {
            let vendor = match &e.vendor {
                Some(v) => v.clone(),
                None => String::new(),
            };
            let integrated = match &e.bus {
                Some(b) => str_igual(b.as_str(), "spdisplays_builtin"),
                None => {
                    proof {
                        reveal_strlit("spdisplays_builtin");
                        assert("spdisplays_builtin"@.len() > 0);
                    }
                    false
                },
            };
            let cores = match &e.cores {
                Some(c) => match analisar_u32(&caracteres(c.as_str())) {
                    Some(n) => n,
                    None => 0,
                },
                None => 0,
            };
            let g = GpuEscolhida { model, vendor, integrated, cores };
            proof {
                assert(primeira_com_modelo(entradas@, i as int));
                assert(gpu_da_entrada(entradas@[i as int], g));
            }
            return Some(g);
        }
        i += 1;
    }
    None
}


proof fn lemma_decimal_sem_espaco_nem_traco(n: nat)
    ensures
        decimal(n).len() > 0,
        forall|i: int| 0 <= i < decimal(n).len() ==> decimal(n)[i] != '-' && !eh_espaco(#[trigger] decimal(n)[i]),
{
    lemma_decimal_le(n);
    assert forall|i: int| 0 <= i < decimal(n).len() implies decimal(n)[i] != '-' && !eh_espaco(#[trigger] decimal(n)[i]) by {
        assert(eh_digito(decimal(n)[i]));
    }
}

/// The highest present CPU is the number after the `-` of `/sys/devices/system/cpu/present`
/// (`a-b` gives `b`, a single `b` gives `b`), with or without a final line break.
pub proof fn lei_ultimo_cpu(a: nat, b: nat)
    requires
        b <= u32::MAX,
    ensures
        ultimo_cpu(decimal(a) + seq!['-'] + decimal(b)) == Some(b),
        ultimo_cpu(decimal(a) + seq!['-'] + decimal(b) + seq!['\n']) == Some(b),
        ultimo_cpu(decimal(b)) == Some(b),
{
    lemma_decimal_sem_espaco_nem_traco(a);
    lemma_decimal_sem_espaco_nem_traco(b);
    let t = decimal(a) + seq!['-'] + decimal(b);
    assert(t[0] == decimal(a)[0]);
    assert(t.last() == decimal(b).last());
    assert(!eh_espaco(decimal(b)[decimal(b).len() - 1]));
    assert(!eh_espaco(decimal(a)[0]));
    lemma_apara_sem_espacos_nas_pontas(t);
    let u = t + seq!['\n'];
    assert(u[0] == t[0]);
    assert(u.drop_last() =~= t);
    assert(apara_inicio(u) == u);
    assert(apara_fim(u) == apara_fim(t));
    assert(apara_fim(t) == t);
    lemma_divide_junta(decimal(a), decimal(b), '-');
    lemma_numero_do_decimal(b, u32::MAX as nat);
    lemma_apara_sem_espacos_nas_pontas(decimal(b));
    lemma_divide_sem_separador(decimal(b), '-');
}


proof fn lemma_nomes_amostras_nao_vazio(s: Seq<AmostraProcesso>)
    requires
        s.len() > 0,
    ensures
        nomes_amostras(s).len() > 0,
    decreases s.len(),
{
    if s.len() > 1 {
        lemma_nomes_amostras_nao_vazio(s.drop_last());
    }
}

/// The process list shows at most fifteen names, fifteen whenever at least that many names run,
/// none only when nothing runs; most memory first; and the first takes at least as much memory as
/// any name at all.
pub proof fn lei_processos_com_mais_memoria(s: Seq<AmostraProcesso>, r: Seq<GrupoProcessos>)
    requires
        eh_top_memoria(s, r),
    ensures
        r.len() <= 15,
        nomes_amostras(s).len() >= 15 ==> r.len() == 15,
        r.len() == 0 <==> s.len() == 0,
        forall|i: int, j: int| 0 <= i < j < r.len() ==> r[i].memory_usage >= r[j].memory_usage,
        r.len() > 0 ==> forall|n: Seq<char>| #[trigger] nomes_amostras(s).contains(n)
            ==> memoria_maxima(s, n) <= r[0].memory_usage,
{
    if s.len() > 0 {
        lemma_nomes_amostras_nao_vazio(s);
    } else {
        assert(nomes_amostras(s).len() == 0);
    }
    if r.len() > 0 {
        assert forall|n: Seq<char>| #[trigger] nomes_amostras(s).contains(n)
            implies memoria_maxima(s, n) <= r[0].memory_usage by {
            if exists|k: int| 0 <= k < r.len() && r[k].name@ == n {
                let k = choose|k: int| 0 <= k < r.len() && r[k].name@ == n;
                assert(grupo_de(s, r[k]));
                if k > 0 {
                    assert(r[0].memory_usage >= r[k].memory_usage);
                }
            } else {
                assert(nomes_amostras(s).contains(n) && (forall|k: int| 0 <= k < r.len() ==> r[k].name@ != n));
            }
        }
    }
}

/// The kinds of the CPUs come in order: performance cores first, then efficiency cores, then
/// unknown ones; exactly the first `p` positions are performance cores and the next `e`
/// efficiency cores.
pub proof fn lei_ordem_dos_nucleos(i: nat, p: u32, e: u32)
    ensures
        tipo_nucleo(i, p, e) == "performance"@ <==> i < p,
        tipo_nucleo(i, p, e) == "efficiency"@ <==> (p <= i && i < p + e),
        tipo_nucleo(i, p, e) == "unknown"@ <==> i >= p + e,
{
    reveal_strlit("performance");
    reveal_strlit("efficiency");
    reveal_strlit("unknown");
    assert("performance"@.len() == 11 && "efficiency"@.len() == 10 && "unknown"@.len() == 7);
}

} // verus!
