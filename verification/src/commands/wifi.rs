use vstd::prelude::*;

use crate::texto::{
    analisar_u8, apara, aparar, bytes_utf8, caracteres, comeca_com, decimal, divide, dividir, eh_espaco,
    escrever_decimal, lemma_primeiro_resultado_passo, linhas, maiusculas, menos_bytes_que, numero_ate,
    para_maiusculas, primeiro_resultado, sem_prefixo, separar_linhas, str_igual, texto_de, tirar_prefixo,
    vistas, acrescentar_unico, com_unico, contem, contem_str, iguais, palavras, separar_palavras,
    ultimo_resultado, vistas_textos, alfanumerico, eh_alfanumerico, primeira, primeira_ocorrencia,
    fatia, analisar_hex_u32, numero_hex_u32, segundo_pedaco, segundo_pedaco_de, sem_parenteses,
    tirar_parenteses, comeca_str, comeca, termina_com, termina, texto_ou_vazio, texto_ou_vazio_de,
    lemma_decimal_le, lemma_numero_do_decimal, lemma_sem_prefixo_junta, lemma_palavras_junta, lemma_uma_palavra, eh_palavra, lemma_divide_sem_separador, lemma_divide_junta, eh_digito,
};
use crate::models::wifi::{DeviceInfo, LocalNetworkInfo};
use crate::commands::network::sem_primeira;

verus! {

/// The numbers among the pieces, in order: each piece read as a `u8`, the others skipped.
pub open spec fn octetos_das_partes(ps: Seq<Seq<char>>) -> Seq<u8>
    decreases ps.len(),
{
    if ps.len() == 0 {
        seq![]
    } else {
        let o = octetos_das_partes(ps.drop_last());
        match numero_ate(ps.last(), u8::MAX as nat) {
            Some(n) => o.push(n as u8),
            None => o,
        }
    }
}

/// What `s.split('.').filter_map(|p| p.parse::<u8>().ok())` gives.
pub open spec fn octetos(s: Seq<char>) -> Seq<u8> {
    octetos_das_partes(divide(s, '.'))
}

/// Reads the `u8` pieces of a dotted address.
pub fn ler_octetos(s: &str) -> (r: Vec<u8>)
    ensures
        r@ == octetos(s@),
{
    let v = caracteres(s);
    let partes = dividir(&v, '.');
    let ghost ps = divide(s@, '.');
    let mut r: Vec<u8> = Vec::new();
    let mut i: usize = 0;
    while i < partes.len()
        invariant
            i <= partes@.len(),
            vistas(partes@) == ps,
            r@ == octetos_das_partes(ps.take(i as int)),
        decreases partes.len() - i,
    {
        proof {
            assert(ps.take(i + 1).drop_last() == ps.take(i as int));
            assert(ps.take(i + 1).last() == partes@[i as int]@);
        }
        match analisar_u8(&partes[i]) {
            Some(x) => r.push(x),
            None => {},
        }
        i += 1;
    }
    proof { assert(ps.take(i as int) == ps); }
    r
}

/// Four numbers written `a.b.c.d`.
pub open spec fn texto_ipv4(a: nat, b: nat, c: nat, d: nat) -> Seq<char> {
    decimal(a) + seq!['.'] + decimal(b) + seq!['.'] + decimal(c) + seq!['.'] + decimal(d)
}

fn escrever_ipv4(a: u64, b: u64, c: u64, d: u64, saida: &mut String)
    ensures
        final(saida)@ == old(saida)@ + texto_ipv4(a as nat, b as nat, c as nat, d as nat),
{
    escrever_decimal(a, saida);
    saida.push('.');
    escrever_decimal(b, saida);
    saida.push('.');
    escrever_decimal(c, saida);
    saida.push('.');
    escrever_decimal(d, saida);
    proof {
        assert(final(saida)@ =~= old(saida)@ + texto_ipv4(a as nat, b as nat, c as nat, d as nat));
    }
}

/// The number of one bits of `x` (`u8::count_ones`).
pub open spec fn bits_um(x: u8) -> nat
    decreases x,
{
    if x == 0 {
        0
    } else {
        (x % 2) as nat + bits_um(x / 2)
    }
}

proof fn lemma_bits_limite(x: u8)
    ensures
        bits_um(x) <= x,
    decreases x,
{
    if x != 0 {
        lemma_bits_limite(x / 2);
    }
}

fn contar_bits(x: u8) -> (r: u32)
    ensures
        r == bits_um(x),
        r <= 255,
{
    let mut y = x;
    let mut r: u32 = 0;
    proof { lemma_bits_limite(x); }
    while y != 0
        invariant
            r + bits_um(y) == bits_um(x),
            bits_um(x) <= 255,
        decreases y,
    {
        r = r + (y % 2) as u32;
        y = y / 2;
    }
    r
}

/// The network prefix bits: the sum of the one bits of the four mask octets.
pub open spec fn comprimento_prefixo(m: Seq<u8>) -> nat {
    bits_um(m[0]) + bits_um(m[1]) + bits_um(m[2]) + bits_um(m[3])
}

/// `a.b.c.d/p`: the network address (address AND mask) and the prefix length; empty unless
/// both the address and the mask give exactly four octets.
pub open spec fn faixa_de_rede(ip: Seq<char>, mask: Seq<char>) -> Seq<char> {
    let i = octetos(ip);
    let m = octetos(mask);
    if i.len() != 4 || m.len() != 4 {
        seq![]
    } else {
        texto_ipv4((i[0] & m[0]) as nat, (i[1] & m[1]) as nat, (i[2] & m[2]) as nat, (i[3] & m[3]) as nat)
            + seq!['/'] + decimal(comprimento_prefixo(m))
    }
}

/// The network of `ip` under `mask`, as `a.b.c.d/prefix`.
pub fn calc_network_range(ip: &str, mask: &str) -> (r: String)
    ensures
        r@ == faixa_de_rede(ip@, mask@),
{
    let i = ler_octetos(ip);
    let m = ler_octetos(mask);
    let mut r = String::new();
    if i.len() != 4 || m.len() != 4 {
        return r;
    }
    escrever_ipv4((i[0] & m[0]) as u64, (i[1] & m[1]) as u64, (i[2] & m[2]) as u64, (i[3] & m[3]) as u64, &mut r);
    r.push('/');
    let prefixo = contar_bits(m[0]) + contar_bits(m[1]) + contar_bits(m[2]) + contar_bits(m[3]);
    escrever_decimal(prefixo as u64, &mut r);
    proof {
        assert(r@ =~= faixa_de_rede(ip@, mask@));
    }
    r
}

/// `a.b.c.d`: the broadcast address (address OR the complement of the mask); empty unless both
/// the address and the mask give exactly four octets.
pub open spec fn difusao(ip: Seq<char>, mask: Seq<char>) -> Seq<char> {
    let i = octetos(ip);
    let m = octetos(mask);
    if i.len() != 4 || m.len() != 4 {
        seq![]
    } else {
        texto_ipv4((i[0] | !m[0]) as nat, (i[1] | !m[1]) as nat, (i[2] | !m[2]) as nat, (i[3] | !m[3]) as nat)
    }
}

/// The broadcast address of `ip` under `mask`.
pub fn calc_broadcast(ip: &str, mask: &str) -> (r: String)
    ensures
        r@ == difusao(ip@, mask@),
{
    let i = ler_octetos(ip);
    let m = ler_octetos(mask);
    let mut r = String::new();
    if i.len() != 4 || m.len() != 4 {
        return r;
    }
    escrever_ipv4((i[0] | !m[0]) as u64, (i[1] | !m[1]) as u64, (i[2] | !m[2]) as u64, (i[3] | !m[3]) as u64, &mut r);
    r
}

/// The 32-bit mask with `prefixo` leading one bits (all ones from 32 on).
pub open spec fn mascara_prefixo(prefixo: u8) -> u32 {
    if prefixo == 0 {
        0
    } else if prefixo >= 32 {
        0xFFFF_FFFF
    } else {
        0xFFFF_FFFFu32 << ((32 - prefixo) as u32)
    }
}

/// The dotted form of a mask with `prefixo` leading one bits (`/24` gives `255.255.255.0`).
pub fn cidr_to_mask(prefixo: u8) -> (r: String)
    ensures
        r@ == texto_ipv4(
            ((mascara_prefixo(prefixo) >> 24u32) & 0xff) as nat,
            ((mascara_prefixo(prefixo) >> 16u32) & 0xff) as nat,
            ((mascara_prefixo(prefixo) >> 8u32) & 0xff) as nat,
            (mascara_prefixo(prefixo) & 0xff) as nat,
        ),
{
    let m: u32 = if prefixo == 0 {
        0
    } else if prefixo >= 32 {
        0xFFFF_FFFF
    } else {
        0xFFFF_FFFFu32 << ((32 - prefixo) as u32)
    };
    let mut r = String::new();
    escrever_ipv4(((m >> 24u32) & 0xff) as u64, ((m >> 16u32) & 0xff) as u64, ((m >> 8u32) & 0xff) as u64, (m & 0xff) as u64, &mut r);
    proof { assert(r@ =~= seq![] + r@); }
    r
}


/// Whether the ARP table is worth warming with a ping to `broadcast`: not when it is empty,
/// `0.0.0.0` or `255.255.255.255`.
pub fn deve_aquecer_arp(broadcast: &str) -> (r: bool)
    ensures
        r == !(broadcast@.len() == 0 || broadcast@ == "0.0.0.0"@ || broadcast@ == "255.255.255.255"@),
{
    let vazio = caracteres(broadcast).len() == 0;
    !(vazio || str_igual(broadcast, "0.0.0.0") || str_igual(broadcast, "255.255.255.255"))
}

/// `m` with every `:` turned into `-` and every space dropped.
pub open spec fn troca_separadores(m: Seq<char>) -> Seq<char>
    decreases m.len(),
{
    if m.len() == 0 {
        seq![]
    } else {
        let p = troca_separadores(m.drop_last());
        let c = m.last();
        if c == ':' {
            p.push('-')
        } else if c == ' ' {
            p
        } else {
            p.push(c)
        }
    }
}

/// The uppercase MAC address with `-` between its bytes, as the vendor lookup service wants it;
/// none when it is empty or shorter than 17 bytes.
pub open spec fn mac_para_consulta(mac: Seq<char>) -> Option<Seq<char>> {
    let m = troca_separadores(maiusculas(mac));
    if m.len() == 0 || bytes_utf8(m) < 17 {
        None
    } else {
        Some(m)
    }
}

/// The address at which the vendor lookup service answers for `mac`; none when the address is
/// too short to be a MAC address.
pub fn url_fornecedor(mac: &str) -> (r: Option<String>)
    ensures
        match r {
            Some(u) => mac_para_consulta(mac@) matches Some(m) && u@ == "https://api.macvendors.com/"@ + m,
            None => mac_para_consulta(mac@) is None,
        },
{
    let maius = para_maiusculas(mac);
    let v = caracteres(maius.as_str());
    let mut m: Vec<char> = Vec::new();
    let mut i: usize = 0;
    while i < v.len()
        invariant
            i <= v@.len(),
            m@ == troca_separadores(v@.take(i as int)),
        decreases v.len() - i,
    {
        let c = v[i];
        proof {
            assert(v@.take(i + 1).drop_last() == v@.take(i as int));
            assert(v@.take(i + 1).last() == c);
        }
        if c == ':' {
            m.push('-');
        } else if c != ' ' {
            m.push(c);
        }
        i += 1;
    }
    proof { assert(v@.take(i as int) == v@); }
    if m.len() == 0 || menos_bytes_que(&m, 17) {
        return None;
    }
    let mut u = "https://api.macvendors.com/".to_owned();
    let resto = texto_de(&m);
    u.append(resto.as_str());
    Some(u)
}

/// The vendor name in a lookup answer: the answer trimmed, none when that is empty.
pub open spec fn nome_do_fornecedor(resposta: Seq<char>) -> Option<Seq<char>> {
    if apara(resposta).len() == 0 {
        None
    } else {
        Some(apara(resposta))
    }
}

/// Reads the vendor name out of a lookup answer.
pub fn limpar_fornecedor(resposta: &str) -> (r: Option<String>)
    ensures
        match r {
            Some(s) => nome_do_fornecedor(resposta@) == Some(s@),
            None => nome_do_fornecedor(resposta@) is None,
        },
{
    let v = aparar(&caracteres(resposta));
    if v.len() == 0 {
        None
    } else {
        Some(texto_de(&v))
    }
}

/// On macOS, the SSID in a line `SSID : name` of `ipconfig getsummary`; not one that is empty or
/// begins with `<`.
pub open spec fn ssid_linha_macos(l: Seq<char>) -> Option<Seq<char>> {
    match sem_prefixo(apara(l), "SSID : "@) {
        Some(resto) => {
            let v = apara(resto);
            if v.len() > 0 && v[0] != '<' {
                Some(v)
            } else {
                None
            }
        },
        None => None,
    }
}

fn ssid_de_linha_macos(l: &[char]) -> (r: Option<Vec<char>>)
    ensures
        match r {
            Some(x) => ssid_linha_macos(l@) == Some(x@),
            None => ssid_linha_macos(l@) is None,
        },
{
    let t = aparar(l);
    match tirar_prefixo(&t, "SSID : ") {
        Some(resto) => {
            let v = aparar(&resto);
            if v.len() > 0 && v[0] != '<' {
                Some(v)
            } else {
                None
            }
        },
        None => None,
    }
}

/// The Wi-Fi SSID in the output of `ipconfig getsummary en0` (macOS).
pub fn ssid_macos(saida: &str) -> (r: Option<String>)
    ensures
        match r {
            Some(s) => primeiro_resultado(linhas(saida@), |l: Seq<char>| ssid_linha_macos(l)) == Some(s@),
            None => primeiro_resultado(linhas(saida@), |l: Seq<char>| ssid_linha_macos(l)) is None,
        },
{
    let ls = separar_linhas(&caracteres(saida));
    let ghost todas = linhas(saida@);
    let ghost f = |l: Seq<char>| ssid_linha_macos(l);
    proof { assert(f == (|l: Seq<char>| ssid_linha_macos(l))); }
    let mut i: usize = 0;
    proof { assert(todas.skip(0) == todas); }
    while i < ls.len()
        invariant
            i <= ls@.len(),
            vistas(ls@) == todas,
            todas == linhas(saida@),
            f == (|l: Seq<char>| ssid_linha_macos(l)),
            primeiro_resultado(todas, f) == primeiro_resultado(todas.skip(i as int), f),
        decreases ls.len() - i,
    {
        proof {
            lemma_primeiro_resultado_passo(todas, f, i as int);
            assert(todas[i as int] == ls@[i as int]@);
        }
        match ssid_de_linha_macos(&ls[i]) {
            Some(v) => {
                return Some(texto_de(&v));
            },
            None => {},
        }
        i += 1;
    }
    proof { assert(todas.skip(i as int) =~= seq![]); }
    None
}

/// `s` without the leading spaces, colons and tabs (`trim_start_matches(&[' ', ':', '\t'])`).
pub open spec fn sem_separadores_iniciais(s: Seq<char>) -> Seq<char>
    decreases s.len(),
{
    if s.len() > 0 && (s[0] == ' ' || s[0] == ':' || s[0] == '\t') {
        sem_separadores_iniciais(s.drop_first())
    } else {
        s
    }
}

/// On Windows, the SSID in a line `SSID : name` of `netsh wlan show interfaces`.
pub open spec fn ssid_linha_windows(l: Seq<char>) -> Option<Seq<char>> {
    match sem_prefixo(apara(l), "SSID"@) {
        Some(resto) => {
            let v = apara(sem_separadores_iniciais(resto));
            if v.len() > 0 {
                Some(v)
            } else {
                None
            }
        },
        None => None,
    }
}

fn ssid_de_linha_windows(l: &[char]) -> (r: Option<Vec<char>>)
    ensures
        match r {
            Some(x) => ssid_linha_windows(l@) == Some(x@),
            None => ssid_linha_windows(l@) is None,
        },
{
    let t = aparar(l);
    match tirar_prefixo(&t, "SSID") {
        Some(resto) => {
            let mut k: usize = 0;
            proof { assert(resto@.skip(0) == resto@); }
            while k < resto.len() && (resto[k] == ' ' || resto[k] == ':' || resto[k] == '\t')
                invariant
                    k <= resto@.len(),
                    sem_separadores_iniciais(resto@) == sem_separadores_iniciais(resto@.skip(k as int)),
                decreases resto.len() - k,
            {
                proof {
                    assert(resto@.skip(k as int)[0] == resto@[k as int]);
                    assert(resto@.skip(k as int).drop_first() == resto@.skip(k + 1));
                }
                k += 1;
            }
            proof {
                if k < resto@.len() {
                    assert(resto@.skip(k as int)[0] == resto@[k as int]);
                }
                assert(resto@.skip(0) == resto@);
            }
            let v = aparar(&fatia_de(&resto, k));
            if v.len() > 0 {
                Some(v)
            } else {
                None
            }
        },
        None => None,
    }
}

fn fatia_de(v: &[char], k: usize) -> (r: Vec<char>)
    requires
        k <= v@.len(),
    ensures
        r@ == v@.skip(k as int),
{
    crate::texto::fatia(v, k, v.len())
}

/// The Wi-Fi SSID in the output of `netsh wlan show interfaces` (Windows).
pub fn ssid_windows(saida: &str) -> (r: Option<String>)
    ensures
        match r {
            Some(s) => primeiro_resultado(linhas(saida@), |l: Seq<char>| ssid_linha_windows(l)) == Some(s@),
            None => primeiro_resultado(linhas(saida@), |l: Seq<char>| ssid_linha_windows(l)) is None,
        },
{
    let ls = separar_linhas(&caracteres(saida));
    let ghost todas = linhas(saida@);
    let ghost f = |l: Seq<char>| ssid_linha_windows(l);
    proof { assert(f == (|l: Seq<char>| ssid_linha_windows(l))); }
    let mut i: usize = 0;
    proof { assert(todas.skip(0) == todas); }
    while i < ls.len()
        invariant
            i <= ls@.len(),
            vistas(ls@) == todas,
            todas == linhas(saida@),
            f == (|l: Seq<char>| ssid_linha_windows(l)),
            primeiro_resultado(todas, f) == primeiro_resultado(todas.skip(i as int), f),
        decreases ls.len() - i,
    {
        proof {
            lemma_primeiro_resultado_passo(todas, f, i as int);
            assert(todas[i as int] == ls@[i as int]@);
        }
        match ssid_de_linha_windows(&ls[i]) {
            Some(v) => {
                return Some(texto_de(&v));
            },
            None => {},
        }
        i += 1;
    }
    proof { assert(todas.skip(i as int) =~= seq![]); }
    None
}

/// The Wi-Fi SSID in the output of `iwgetid -r` (Linux): the output trimmed, none when empty.
pub fn ssid_linux(saida: &str) -> (r: Option<String>)
    ensures
        match r {
            Some(s) => apara(saida@).len() > 0 && s@ == apara(saida@),
            None => apara(saida@).len() == 0,
        },
{
    let v = aparar(&caracteres(saida));
    if v.len() == 0 {
        None
    } else {
        Some(texto_de(&v))
    }
}


/// The first word of `s`, or nothing.
pub open spec fn primeira_palavra(s: Seq<char>) -> Seq<char> {
    if palavras(s).len() > 0 {
        palavras(s)[0]
    } else {
        seq![]
    }
}

fn primeira_palavra_de(v: &[char]) -> (r: Vec<char>)
    ensures
        r@ == primeira_palavra(v@),
{
    let mut w = separar_palavras(v);
    proof { assert(vistas(w@) == palavras(v@)); }
    if w.len() > 0 {
        proof { assert(vistas(w@)[0] == w@[0]@); }
        w.swap_remove(0)
    } else {
        Vec::new()
    }
}

/// On Linux, an address on a line `inet a.b.c.d/n ...` of `ip -4 addr show`, unless it is the loopback.
pub open spec fn ip_linha_linux(l: Seq<char>) -> Option<Seq<char>> {
    match sem_prefixo(apara(l), "inet "@) {
        Some(resto) => {
            let a = primeira_palavra(resto);
            if a != "127.0.0.1"@ && a.len() > 0 {
                Some(a)
            } else {
                None
            }
        },
        None => None,
    }
}

/// The local address in the output of `ip -4 addr show` (Linux): that of the first `inet` line
/// that is not the loopback, as it stands there (with its `/prefix`); empty when there is none.
pub fn ip_local_linux(saida: &str) -> (r: String)
    ensures
        r@ == (match primeiro_resultado(linhas(saida@), |l: Seq<char>| ip_linha_linux(l)) {
            Some(a) => a,
            None => seq![],
        }),
{
    let ls = separar_linhas(&caracteres(saida));
    let ghost todas = linhas(saida@);
    let ghost f = |l: Seq<char>| ip_linha_linux(l);
    let mut i: usize = 0;
    proof { assert(todas.skip(0) == todas); }
    while i < ls.len()
        invariant
            i <= ls@.len(),
            vistas(ls@) == todas,
            todas == linhas(saida@),
            f == (|l: Seq<char>| ip_linha_linux(l)),
            primeiro_resultado(todas, f) == primeiro_resultado(todas.skip(i as int), f),
        decreases ls.len() - i,
    {
        proof {
            lemma_primeiro_resultado_passo(todas, f, i as int);
            assert(todas[i as int] == ls@[i as int]@);
        }
        let t = aparar(&ls[i]);
        match tirar_prefixo(&t, "inet ") {
            Some(resto) => {
                let a = primeira_palavra_de(&resto);
                let lo: Vec<char> = caracteres("127.0.0.1");
                if !iguais(&a, &lo) && a.len() > 0 {
                    return texto_de(&a);
                }
            },
            None => {},
        }
        i += 1;
    }
    proof { assert(todas.skip(i as int) =~= seq![]); }
    String::new()
}

/// On Linux, the gateway on a line `default via a.b.c.d ...` of `ip route show default`.
pub open spec fn gateway_linha_linux(l: Seq<char>) -> Option<Seq<char>> {
    match sem_prefixo(l, "default via "@) {
        Some(resto) => Some(primeira_palavra(resto)),
        None => None,
    }
}

/// The default gateway in the output of `ip route show default` (Linux): the word after
/// `default via` on the first line that begins so; empty when there is none.
pub fn gateway_linux(saida: &str) -> (r: String)
    ensures
        r@ == (match primeiro_resultado(linhas(saida@), |l: Seq<char>| gateway_linha_linux(l)) {
            Some(a) => a,
            None => seq![],
        }),
{
    let ls = separar_linhas(&caracteres(saida));
    let ghost todas = linhas(saida@);
    let ghost f = |l: Seq<char>| gateway_linha_linux(l);
    let mut i: usize = 0;
    proof { assert(todas.skip(0) == todas); }
    while i < ls.len()
        invariant
            i <= ls@.len(),
            vistas(ls@) == todas,
            todas == linhas(saida@),
            f == (|l: Seq<char>| gateway_linha_linux(l)),
            primeiro_resultado(todas, f) == primeiro_resultado(todas.skip(i as int), f),
        decreases ls.len() - i,
    {
        proof {
            lemma_primeiro_resultado_passo(todas, f, i as int);
            assert(todas[i as int] == ls@[i as int]@);
        }
        match tirar_prefixo(&ls[i], "default via ") {
            Some(resto) => {
                let a = primeira_palavra_de(&resto);
                return texto_de(&a);
            },
            None => {},
        }
        i += 1;
    }
    proof { assert(todas.skip(i as int) =~= seq![]); }
    String::new()
}

/// The prefix length after the word `ip` among the first `k` words: from the last such word
/// back, the first one followed by a word `/n` with `n` a `u8`.
pub open spec fn prefixo_apos(w: Seq<Seq<char>>, ip: Seq<char>, k: int) -> Option<u8>
    decreases k,
{
    if k <= 0 {
        None
    } else {
        let i = k - 1;
        let aqui: Option<u8> = if w[i] == ip && i + 1 < w.len() {
            match sem_prefixo(w[i + 1], "/"@) {
                Some(c) => match numero_ate(c, u8::MAX as nat) {
                    Some(n) => Some(n as u8),
                    None => None,
                },
                None => None,
            }
        } else {
            None
        };
        match aqui {
            Some(p) => Some(p),
            None => prefixo_apos(w, ip, i),
        }
    }
}

/// On Linux, the prefix length given on a line of `ip -4 addr show` that contains `ip`.
pub open spec fn prefixo_linha_linux(l: Seq<char>, ip: Seq<char>) -> Option<u8> {
    if contem(l, ip) {
        prefixo_apos(palavras(l), ip, palavras(l).len() as int)
    } else {
        None
    }
}

/// The dotted mask of a prefix length, as `cidr_to_mask` writes it.
pub open spec fn texto_mascara(prefixo: u8) -> Seq<char> {
    texto_ipv4(
        ((mascara_prefixo(prefixo) >> 24u32) & 0xff) as nat,
        ((mascara_prefixo(prefixo) >> 16u32) & 0xff) as nat,
        ((mascara_prefixo(prefixo) >> 8u32) & 0xff) as nat,
        (mascara_prefixo(prefixo) & 0xff) as nat,
    )
}

/// The subnet mask of `local_ip` in the output of `ip -4 addr show` (Linux): on the lines that
/// contain the address, a word equal to it followed by `/n` gives the mask of prefix `n`; the
/// last such pair wins; empty when there is none.
pub fn mascara_linux(saida: &str, local_ip: &str) -> (r: String)
    ensures
        r@ == (match ultimo_resultado(linhas(saida@), |l: Seq<char>| prefixo_linha_linux(l, local_ip@)) {
            Some(p) => texto_mascara(p),
            None => seq![],
        }),
{
    let ls = separar_linhas(&caracteres(saida));
    let ip = caracteres(local_ip);
    let ghost todas = linhas(saida@);
    let ghost f = |l: Seq<char>| prefixo_linha_linux(l, local_ip@);
    let mut i: usize = ls.len();
    proof { assert(todas.take(i as int) == todas); }
    while i > 0
        invariant
            i <= ls@.len(),
            vistas(ls@) == todas,
            todas == linhas(saida@),
            ip@ == local_ip@,
            f == (|l: Seq<char>| prefixo_linha_linux(l, local_ip@)),
            ultimo_resultado(todas, f) == ultimo_resultado(todas.take(i as int), f),
        decreases i,
    {
        let l = &ls[i - 1];
        proof {
            assert(todas[i - 1] == l@);
            assert(todas.take(i as int).last() == l@);
            assert(todas.take(i as int).drop_last() == todas.take(i - 1));
        }
        let achado: Option<u8> = if contem_ip(l, &ip) {
            let w = separar_palavras(l);
            let ghost wv = palavras(l@);
            proof { assert(vistas(w@) == wv); }
            let mut k: usize = w.len();
            let mut res: Option<u8> = None;
            while k > 0
                invariant_except_break
                    res is None,
                    prefixo_apos(wv, ip@, wv.len() as int) == prefixo_apos(wv, ip@, k as int),
                invariant
                    k <= w@.len(),
                    vistas(w@) == wv,
                    ip@ == local_ip@,
                ensures
                    res == prefixo_apos(wv, ip@, wv.len() as int),
                decreases k,
            {
                let j = k - 1;
                proof {
                    assert(wv[j as int] == w@[j as int]@);
                    if j + 1 < w@.len() {
                        assert(wv[j + 1] == w@[j as int + 1]@);
                    }
                }
                if iguais(&w[j], &ip) && j + 1 < w.len() {
                    match tirar_prefixo(&w[j + 1], "/") {
                        Some(c) => match analisar_u8(&c) {
                            Some(n) => {
                                res = Some(n);
                                proof { assert(prefixo_apos(wv, ip@, k as int) == Some(n)); }
                                break;
                            },
                            None => {},
                        },
                        None => {},
                    }
                }
                k = j;
            }
            res
        } else {
            None
        };
        match achado {
            Some(p) => {
                return cidr_to_mask(p);
            },
            None => {},
        }
        i -= 1;
    }
    String::new()
}

fn contem_ip(l: &[char], ip: &[char]) -> (r: bool)
    ensures
        r == contem(l@, ip@),
{
    crate::texto::primeira_ocorrencia(l, ip).is_some()
}


/// On Linux, the address on a line `nameserver a.b.c.d` of `/etc/resolv.conf`.
pub open spec fn dns_linha_resolv(l: Seq<char>) -> Option<Seq<char>> {
    match sem_prefixo(apara(l), "nameserver "@) {
        Some(resto) => Some(apara(resto)),
        None => None,
    }
}

/// The name servers of the lines, each once, in order; empty addresses skipped.
pub open spec fn dns_das_linhas_resolv(ls: Seq<Seq<char>>) -> Seq<Seq<char>>
    decreases ls.len(),
{
    if ls.len() == 0 {
        seq![]
    } else {
        let p = dns_das_linhas_resolv(ls.drop_last());
        match dns_linha_resolv(ls.last()) {
            Some(a) => if a.len() > 0 {
                com_unico(p, a)
            } else {
                p
            },
            None => p,
        }
    }
}

/// The name servers listed in `/etc/resolv.conf` (Linux).
pub fn dns_resolv_conf(texto: &str) -> (r: Vec<String>)
    ensures
        vistas_textos(r@) == dns_das_linhas_resolv(linhas(texto@)),
{
    let ls = separar_linhas(&caracteres(texto));
    let ghost todas = linhas(texto@);
    let mut r: Vec<String> = Vec::new();
    let mut i: usize = 0;
    proof { assert(vistas_textos(r@) =~= seq![]); }
    while i < ls.len()
        invariant
            i <= ls@.len(),
            vistas(ls@) == todas,
            vistas_textos(r@) == dns_das_linhas_resolv(todas.take(i as int)),
        decreases ls.len() - i,
    {
        proof {
            assert(todas.take(i + 1).drop_last() == todas.take(i as int));
            assert(todas.take(i + 1).last() == ls@[i as int]@);
        }
        let t = aparar(&ls[i]);
        match tirar_prefixo(&t, "nameserver ") {
            Some(resto) => {
                let a = aparar(&resto);
                if a.len() > 0 {
                    acrescentar_unico(&mut r, &a);
                }
            },
            None => {},
        }
        i += 1;
    }
    proof { assert(todas.take(i as int) == todas); }
    r
}

/// The words of `ws` that contain a `.` and no `/`, added to `acc` each unless there already.
pub open spec fn acrescenta_enderecos(acc: Seq<Seq<char>>, ws: Seq<Seq<char>>) -> Seq<Seq<char>>
    decreases ws.len(),
{
    if ws.len() == 0 {
        acc
    } else {
        let a = acrescenta_enderecos(acc, ws.drop_last());
        let p = ws.last();
        if contem(p, "."@) && !contem(p, "/"@) {
            com_unico(a, p)
        } else {
            a
        }
    }
}

/// The addresses in the lines of `resolvectl dns`, each once, in order.
pub open spec fn dns_das_linhas_resolvectl(ls: Seq<Seq<char>>) -> Seq<Seq<char>>
    decreases ls.len(),
{
    if ls.len() == 0 {
        seq![]
    } else {
        acrescenta_enderecos(dns_das_linhas_resolvectl(ls.drop_last()), palavras(ls.last()))
    }
}

/// The name servers in the output of `resolvectl dns` (Linux): the words with a `.` and no `/`.
pub fn dns_resolvectl(saida: &str) -> (r: Vec<String>)
    ensures
        vistas_textos(r@) == dns_das_linhas_resolvectl(linhas(saida@)),
{
    let ls = separar_linhas(&caracteres(saida));
    let ghost todas = linhas(saida@);
    let mut r: Vec<String> = Vec::new();
    let mut i: usize = 0;
    proof { assert(vistas_textos(r@) =~= seq![]); }
    while i < ls.len()
        invariant
            i <= ls@.len(),
            vistas(ls@) == todas,
            vistas_textos(r@) == dns_das_linhas_resolvectl(todas.take(i as int)),
        decreases ls.len() - i,
    {
        proof {
            assert(todas.take(i + 1).drop_last() == todas.take(i as int));
            assert(todas.take(i + 1).last() == ls@[i as int]@);
        }
        let w = separar_palavras(&ls[i]);
        let ghost wv = palavras(ls@[i as int]@);
        let ghost base = vistas_textos(r@);
        let mut k: usize = 0;
        proof { assert(wv.take(0) =~= seq![]); }
        while k < w.len()
            invariant
                k <= w@.len(),
                vistas(w@) == wv,
                vistas_textos(r@) == acrescenta_enderecos(base, wv.take(k as int)),
            decreases w.len() - k,
        {
            proof {
                assert(wv.take(k + 1).drop_last() == wv.take(k as int));
                assert(wv.take(k + 1).last() == w@[k as int]@);
            }
            let p = &w[k];
            if contem_str(p, ".") && !contem_str(p, "/") {
                acrescentar_unico(&mut r, p);
            }
            k += 1;
        }
        proof { assert(wv.take(k as int) == wv); }
        i += 1;
    }
    proof { assert(todas.take(i as int) == todas); }
    r
}

/// A device's address and MAC address, as plain values.
pub open spec fn vista_dispositivo(d: DeviceInfo) -> (Seq<char>, Seq<char>) {
    (d.ip@, d.mac@)
}

pub open spec fn vistas_dispositivos(r: Seq<DeviceInfo>) -> Seq<(Seq<char>, Seq<char>)> {
    Seq::new(r.len(), |i: int| vista_dispositivo(r[i]))
}

/// The devices that the lines give, in order.
pub open spec fn coleta_dispositivos(
    ls: Seq<Seq<char>>,
    f: spec_fn(Seq<char>) -> Option<(Seq<char>, Seq<char>)>,
) -> Seq<(Seq<char>, Seq<char>)>
    decreases ls.len(),
{
    if ls.len() == 0 {
        seq![]
    } else {
        let p = coleta_dispositivos(ls.drop_last(), f);
        match f(ls.last()) {
            Some(d) => p.push(d),
            None => p,
        }
    }
}

/// On Linux, a device on a line of `arp -n` (`address HWtype HWaddress ...`): not an incomplete
/// entry, not the machine itself, not a MAC address shorter than 17 bytes.
pub open spec fn dispositivo_arp_linux(l: Seq<char>, local_ip: Seq<char>) -> Option<(Seq<char>, Seq<char>)> {
    let w = palavras(l);
    if w.len() < 3 {
        None
    } else {
        let ip = w[0];
        let mac = w[2];
        if mac == "(incomplete)"@ || ip == local_ip || bytes_utf8(mac) < 17 {
            None
        } else {
            Some((ip, mac))
        }
    }
}

/// The devices in the output of `arp -n` (Linux; its first line is the header), without vendors.
pub fn dispositivos_arp_linux(saida: &str, local_ip: &str) -> (r: Vec<DeviceInfo>)
    ensures
        vistas_dispositivos(r@) == dispositivos_linux(sem_primeira(linhas(saida@)), local_ip@),
        forall|i: int| 0 <= i < r@.len() ==> r@[i].vendor is None,
{
    let ls = separar_linhas(&caracteres(saida));
    let ip_local = caracteres(local_ip);
    let incompleto = caracteres("(incomplete)");
    let ghost todas = linhas(saida@);
    let ghost f = |l: Seq<char>| dispositivo_arp_linux(l, local_ip@);
    let mut r: Vec<DeviceInfo> = Vec::new();
    if ls.len() == 0 {
        proof {
            assert(vistas(ls@).len() == 0);
            assert(vistas_dispositivos(r@) =~= seq![]);
        }
        return r;
    }
    let mut i: usize = 1;
    proof { assert(vistas_dispositivos(r@) =~= seq![]); }
    while i < ls.len()
        invariant
            1 <= i <= ls@.len(),
            vistas(ls@) == todas,
            todas == linhas(saida@),
            ip_local@ == local_ip@,
            incompleto@ == "(incomplete)"@,
            f == (|l: Seq<char>| dispositivo_arp_linux(l, local_ip@)),
            vistas_dispositivos(r@) == coleta_dispositivos(todas.skip(1).take(i - 1), f),
            forall|k: int| 0 <= k < r@.len() ==> r@[k].vendor is None,
        decreases ls.len() - i,
    {
        let ghost t = todas.skip(1).take(i as int);
        proof {
            assert(t.drop_last() == todas.skip(1).take(i - 1));
            assert(t.last() == ls@[i as int]@);
        }
        let w = separar_palavras(&ls[i]);
        proof { assert(vistas(w@) == palavras(ls@[i as int]@)); }
        if w.len() >= 3 {
            proof {
                assert(vistas(w@)[0] == w@[0]@);
                assert(vistas(w@)[2] == w@[2]@);
            }
            let ip = &w[0];
            let mac = &w[2];
            if !(iguais(mac, &incompleto) || iguais(ip, &ip_local) || menos_bytes_que(mac, 17)) {
                let d = DeviceInfo { ip: texto_de(ip), mac: texto_de(mac), vendor: None };
                let ghost antes = r@;
                r.push(d);
                proof { assert(vistas_dispositivos(r@) =~= vistas_dispositivos(antes).push(vista_dispositivo(d))); }
            }
        }
        i += 1;
    }
    proof { assert(todas.skip(1).take(i - 1) == todas.skip(1)); }
    r
}

/// The gateway must be added to the devices: it is known and no device has its address.
pub open spec fn falta_gateway(gateway: Seq<char>, devices: Seq<DeviceInfo>) -> bool {
    gateway.len() > 0 && forall|k: int| 0 <= k < devices.len() ==> devices[k].ip@ != gateway
}

/// Puts the local network together: each device gets the vendor found for it (by position),
/// the gateway goes first when no device has its address, and the network range is computed
/// from the address and the mask.
pub fn montar_rede_local(
    local_ip: String,
    gateway: String,
    subnet_mask: String,
    dns_servers: Vec<String>,
    devices: Vec<DeviceInfo>,
    vendors: Vec<Option<String>>,
) -> (r: LocalNetworkInfo)
    ensures
        r.network_range@ == faixa_de_rede(local_ip@, subnet_mask@),
        r.local_ip == local_ip,
        r.gateway == gateway,
        r.subnet_mask == subnet_mask,
        r.dns_servers == dns_servers,
        ({
            let d = if falta_gateway(gateway@, devices@) { 1int } else { 0int };
            &&& r.devices@.len() == devices@.len() + d
            &&& falta_gateway(gateway@, devices@) ==> r.devices@[0].ip@ == gateway@ && r.devices@[0].mac@
                == Seq::<char>::empty() && r.devices@[0].vendor is None
            &&& forall|k: int|
                #![trigger devices@[k]]
                0 <= k < devices@.len() ==> {
                    &&& r.devices@[k + d].ip == devices@[k].ip
                    &&& r.devices@[k + d].mac == devices@[k].mac
                    &&& r.devices@[k + d].vendor == (if k < vendors@.len() {
                        vendors@[k]
                    } else {
                        devices@[k].vendor
                    })
                }
        }),
{
    let network_range = calc_network_range(local_ip.as_str(), subnet_mask.as_str());
    let ghost orig = devices@;
    let ghost vs = vendors@;
    let mut resto = devices;
    let mut fornecedores = vendors;
    let mut lista: Vec<DeviceInfo> = Vec::new();
    let ghost mut k: int = 0;
    while resto.len() > 0
        invariant
            0 <= k <= orig.len(),
            resto@ == orig.skip(k),
            fornecedores@ == (if k <= vs.len() { vs.skip(k) } else { seq![] }),
            lista@.len() == k,
            forall|q: int|
                #![trigger orig[q]]
                0 <= q < k ==> {
                    &&& lista@[q].ip == orig[q].ip
                    &&& lista@[q].mac == orig[q].mac
                    &&& lista@[q].vendor == (if q < vs.len() { vs[q] } else { orig[q].vendor })
                },
        decreases resto.len(),
    {
        let d = resto.remove(0);
        proof { assert(d == orig[k]); }
        let vendor = if fornecedores.len() > 0 {
            proof { assert(fornecedores@[0] == vs[k]); }
            fornecedores.remove(0)
        } else {
            d.vendor
        };
        lista.push(DeviceInfo { ip: d.ip, mac: d.mac, vendor });
        proof {
            k = k + 1;
            assert(resto@ == orig.skip(k));
            if k <= vs.len() {
                assert(fornecedores@ == vs.skip(k));
            } else {
                assert(fornecedores@ =~= seq![]);
            }
        }
    }
    proof { assert(k == orig.len()); }
    let mut presente = false;
    let mut q: usize = 0;
    while q < lista.len()
        invariant
            q <= lista@.len(),
            lista@.len() == orig.len(),
            forall|j: int| #![trigger orig[j]] 0 <= j < orig.len() ==> lista@[j].ip == orig[j].ip,
            presente == exists|j: int| 0 <= j < q && orig[j].ip@ == gateway@,
        decreases lista.len() - q,
    {
        if str_igual(lista[q].ip.as_str(), gateway.as_str()) {
            proof { assert(orig[q as int].ip == lista@[q as int].ip); }
            presente = true;
        }
        q += 1;
    }
    let vazio = caracteres(gateway.as_str()).len() == 0;
    if !vazio && !presente {
        let g = DeviceInfo { ip: gateway.clone(), mac: String::new(), vendor: None };
        let ghost antes = lista@;
        lista.insert(0, g);
        proof {
            assert(falta_gateway(gateway@, orig)) by {
                assert forall|j: int| 0 <= j < orig.len() implies orig[j].ip@ != gateway@ by {
                    if orig[j].ip@ == gateway@ {
                        assert(exists|jj: int| 0 <= jj < q && orig[jj].ip@ == gateway@);
                    }
                }
            }
            assert forall|j: int| #![trigger orig[j]] 0 <= j < orig.len() implies lista@[j + 1] == antes[j] by {}
        }
    } else {
        proof {
            if presente {
                let j = choose|j: int| 0 <= j < q && orig[j].ip@ == gateway@;
                assert(!falta_gateway(gateway@, orig));
            }
        }
    }
    LocalNetworkInfo { local_ip, gateway, subnet_mask, network_range, dns_servers, devices: lista }
}


/// A name made only of alphanumeric characters, `_` and `-`.
pub open spec fn nome_de_interface_valido(f: Seq<char>) -> bool {
    forall|k: int| 0 <= k < f.len() ==> alfanumerico(#[trigger] f[k]) || f[k] == '_' || f[k] == '-'
}

/// On macOS, the interface named at the head of an `ifconfig` section (`en0: flags=...`):
/// what precedes the first `:` of the trimmed line, when it is a non-empty valid name.
pub open spec fn iface_do_cabecalho(l: Seq<char>) -> Option<Seq<char>> {
    let t = apara(l);
    match primeira(t, seq![':']) {
        Some(c) => {
            let f = t.subrange(0, c);
            if f.len() > 0 && nome_de_interface_valido(f) {
                Some(f)
            } else {
                None
            }
        },
        None => None,
    }
}

/// The first interface header among the first `j` lines, looking from line `j - 1` up.
pub open spec fn iface_acima(ls: Seq<Seq<char>>, j: int) -> Option<Seq<char>>
    decreases j,
{
    if j <= 0 {
        None
    } else {
        match iface_do_cabecalho(ls[j - 1]) {
            Some(f) => Some(f),
            None => iface_acima(ls, j - 1),
        }
    }
}

/// Looking from line `i - 1` up for a line equal to `alvo` that has an interface header above it.
pub open spec fn iface_da_secao(ls: Seq<Seq<char>>, alvo: Seq<char>, i: int) -> Option<Seq<char>>
    decreases i,
{
    if i <= 0 {
        None
    } else {
        let aqui = if ls[i - 1] == alvo {
            iface_acima(ls, i - 1)
        } else {
            None
        };
        match aqui {
            Some(f) => Some(f),
            None => iface_da_secao(ls, alvo, i - 1),
        }
    }
}

fn iface_de_cabecalho(l: &[char]) -> (r: Option<Vec<char>>)
    ensures
        match r {
            Some(f) => iface_do_cabecalho(l@) == Some(f@),
            None => iface_do_cabecalho(l@) is None,
        },
{
    let t = aparar(l);
    let dois_pontos: Vec<char> = vec![':'];
    proof { assert(dois_pontos@ =~= seq![':']); }
    match primeira_ocorrencia(&t, &dois_pontos) {
        Some(c) => {
            let f = fatia(&t, 0, c);
            let mut k: usize = 0;
            let mut ok = true;
            while k < f.len()
                invariant
                    k <= f@.len(),
                    ok == forall|q: int| 0 <= q < k ==> alfanumerico(#[trigger] f@[q]) || f@[q] == '_' || f@[q] == '-',
                decreases f.len() - k,
            {
                let ch = f[k];
                if !(eh_alfanumerico(ch) || ch == '_' || ch == '-') {
                    ok = false;
                }
                k += 1;
            }
            if f.len() > 0 && ok {
                Some(f)
            } else {
                None
            }
        },
        None => None,
    }
}

fn iface_acima_de(ls: &Vec<Vec<char>>, j: usize) -> (r: Option<Vec<char>>)
    requires
        j <= ls@.len(),
    ensures
        match r {
            Some(f) => iface_acima(vistas(ls@), j as int) == Some(f@),
            None => iface_acima(vistas(ls@), j as int) is None,
        },
{
    let mut k = j;
    while k > 0
        invariant
            k <= j <= ls@.len(),
            iface_acima(vistas(ls@), j as int) == iface_acima(vistas(ls@), k as int),
        decreases k,
    {
        proof { assert(vistas(ls@)[k - 1] == ls@[k - 1]@); }
        match iface_de_cabecalho(&ls[k - 1]) {
            Some(f) => {
                return Some(f);
            },
            None => {},
        }
        k -= 1;
    }
    None
}

fn iface_da_secao_de(ls: &Vec<Vec<char>>, alvo: &[char]) -> (r: Option<Vec<char>>)
    ensures
        match r {
            Some(f) => iface_da_secao(vistas(ls@), alvo@, ls@.len() as int) == Some(f@),
            None => iface_da_secao(vistas(ls@), alvo@, ls@.len() as int) is None,
        },
{
    let mut i = ls.len();
    while i > 0
        invariant
            i <= ls@.len(),
            iface_da_secao(vistas(ls@), alvo@, ls@.len() as int) == iface_da_secao(vistas(ls@), alvo@, i as int),
        decreases i,
    {
        proof { assert(vistas(ls@)[i - 1] == ls@[i - 1]@); }
        if iguais(&ls[i - 1], alvo) {
            match iface_acima_de(ls, i - 1) {
                Some(f) => {
                    return Some(f);
                },
                None => {},
            }
        }
        i -= 1;
    }
    None
}

/// The interface whose `ifconfig` section holds `target_line`: from the last line equal to it
/// up, the nearest header line above it that names a valid interface (macOS).
pub fn find_iface_in_section(text: &str, target_line: &str) -> (r: Option<String>)
    ensures
        match r {
            Some(f) => iface_da_secao(linhas(text@), target_line@, linhas(text@).len() as int) == Some(f@),
            None => iface_da_secao(linhas(text@), target_line@, linhas(text@).len() as int) is None,
        },
{
    let ls = separar_linhas(&caracteres(text));
    let alvo = caracteres(target_line);
    match iface_da_secao_de(&ls, &alvo) {
        Some(f) => Some(texto_de(&f)),
        None => None,
    }
}

/// On macOS, a line of `ifconfig` with an IPv4 address other than the loopback.
pub open spec fn linha_ipv4_ativa(l: Seq<char>) -> bool {
    contem(l, "inet "@) && !contem(l, "127.0.0.1"@)
}

/// The first line, from line `i` on, with an active IPv4 address and a section header above it.
pub open spec fn iface_ativa_desde(ls: Seq<Seq<char>>, i: int) -> Option<Seq<char>>
    decreases ls.len() - i,
{
    if i < 0 || i >= ls.len() {
        None
    } else {
        let aqui = if linha_ipv4_ativa(ls[i]) {
            iface_da_secao(ls, ls[i], ls.len() as int)
        } else {
            None
        };
        match aqui {
            Some(f) => Some(f),
            None => iface_ativa_desde(ls, i + 1),
        }
    }
}

/// The active interface in the output of `ifconfig` (macOS): the section of the first line with
/// an IPv4 address other than the loopback; `en0` when there is none.
pub fn find_active_iface(saida: &str) -> (r: String)
    ensures
        r@ == (match iface_ativa_desde(linhas(saida@), 0) {
            Some(f) => f,
            None => "en0"@,
        }),
{
    let ls = separar_linhas(&caracteres(saida));
    let ghost todas = linhas(saida@);
    let mut i: usize = 0;
    while i < ls.len()
        invariant
            i <= ls@.len(),
            vistas(ls@) == todas,
            todas == linhas(saida@),
            iface_ativa_desde(todas, 0) == iface_ativa_desde(todas, i as int),
        decreases ls.len() - i,
    {
        proof { assert(todas[i as int] == ls@[i as int]@); }
        let l = &ls[i];
        if contem_str(l, "inet ") && !contem_str(l, "127.0.0.1") {
            match iface_da_secao_de(&ls, l) {
                Some(f) => {
                    return texto_de(&f);
                },
                None => {},
            }
        }
        i += 1;
    }
    "en0".to_owned()
}


/// The first position of the word `x` in `w`, from position `i` on.
pub open spec fn posicao_desde(w: Seq<Seq<char>>, x: Seq<char>, i: int) -> Option<int>
    decreases w.len() - i,
{
    if i < 0 || i >= w.len() {
        None
    } else if w[i] == x {
        Some(i)
    } else {
        posicao_desde(w, x, i + 1)
    }
}

/// On macOS, the words of a line `inet a.b.c.d netmask 0x... ...` of `ifconfig`, unless the
/// address is the loopback.
pub open spec fn palavras_inet_macos(l: Seq<char>) -> Option<Seq<Seq<char>>> {
    match sem_prefixo(apara(l), "inet "@) {
        Some(resto) => {
            let w = palavras(resto);
            if w.len() > 0 && w[0] != "127.0.0.1"@ {
                Some(w)
            } else {
                None
            }
        },
        None => None,
    }
}

/// On macOS, the address on an `inet` line of `ifconfig`.
pub open spec fn endereco_linha_macos(l: Seq<char>) -> Option<Seq<char>> {
    match palavras_inet_macos(l) {
        Some(w) => Some(w[0]),
        None => None,
    }
}

/// The dotted form of a 32-bit mask.
pub open spec fn texto_mascara_u32(n: u32) -> Seq<char> {
    texto_ipv4(((n >> 24u32) & 0xff) as nat, ((n >> 16u32) & 0xff) as nat, ((n >> 8u32) & 0xff) as nat, (n & 0xff) as nat)
}

/// On macOS, the mask on an `inet` line of `ifconfig`: the word after `netmask`, turned into
/// dotted form when it is hexadecimal (`0xffffff00`), as it stands otherwise.
pub open spec fn mascara_linha_macos(l: Seq<char>) -> Option<Seq<char>> {
    match palavras_inet_macos(l) {
        Some(w) => match posicao_desde(w, "netmask"@, 0) {
            Some(i) => if i + 1 < w.len() {
                match sem_prefixo(w[i + 1], "0x"@) {
                    Some(hex) => match numero_hex_u32(hex) {
                        Some(n) => Some(texto_mascara_u32(n as u32)),
                        None => None,
                    },
                    None => Some(w[i + 1]),
                }
            } else {
                None
            },
            None => None,
        },
        None => None,
    }
}

fn palavras_inet_macos_de(l: &[char]) -> (r: Option<Vec<Vec<char>>>)
    ensures
        match r {
            Some(w) => palavras_inet_macos(l@) == Some(vistas(w@)),
            None => palavras_inet_macos(l@) is None,
        },
{
    let t = aparar(l);
    match tirar_prefixo(&t, "inet ") {
        Some(resto) => {
            let w = separar_palavras(&resto);
            let lo = caracteres("127.0.0.1");
            if w.len() > 0 {
                proof { assert(vistas(w@)[0] == w@[0]@); }
                if !iguais(&w[0], &lo) {
                    return Some(w);
                }
            }
            None
        },
        None => None,
    }
}

fn mascara_de_linha_macos(l: &[char]) -> (r: Option<String>)
    ensures
        match r {
            Some(m) => mascara_linha_macos(l@) == Some(m@),
            None => mascara_linha_macos(l@) is None,
        },
{
    match palavras_inet_macos_de(l) {
        Some(w) => {
            let ghost wv = vistas(w@);
            let nm = caracteres("netmask");
            let mut i: usize = 0;
            while i < w.len() && !iguais(&w[i], &nm)
                invariant
                    i <= w@.len(),
                    wv == vistas(w@),
                    nm@ == "netmask"@,
                    posicao_desde(wv, "netmask"@, 0) == posicao_desde(wv, "netmask"@, i as int),
                decreases w.len() - i,
            {
                proof { assert(wv[i as int] == w@[i as int]@); }
                i += 1;
            }
            proof {
                if i < w@.len() {
                    assert(wv[i as int] == w@[i as int]@);
                    assert(posicao_desde(wv, "netmask"@, i as int) == Some(i as int));
                }
            }
            if i >= w.len() || i + 1 >= w.len() {
                return None;
            }
            proof { assert(wv[i + 1] == w@[i + 1]@); }
            let bruto = &w[i + 1];
            match tirar_prefixo(bruto, "0x") {
                Some(hex) => match analisar_hex_u32(&hex) {
                    Some(n) => {
                        let mut m = String::new();
                        escrever_ipv4(((n >> 24u32) & 0xff) as u64, ((n >> 16u32) & 0xff) as u64, ((n >> 8u32) & 0xff) as u64, (n & 0xff) as u64, &mut m);
                        proof { assert(m@ =~= texto_mascara_u32(n)); }
                        Some(m)
                    },
                    None => None,
                },
                None => Some(texto_de(bruto)),
            }
        },
        None => None,
    }
}

/// The local address and the subnet mask in the output of `ifconfig <iface>` (macOS): the last
/// `inet` line other than the loopback gives the address, the last such line with a usable
/// `netmask` gives the mask; each is empty when there is none.
pub fn endereco_e_mascara_macos(saida: &str) -> (r: (String, String))
    ensures
        r.0@ == (match ultimo_resultado(linhas(saida@), |l: Seq<char>| endereco_linha_macos(l)) {
            Some(a) => a,
            None => seq![],
        }),
        r.1@ == (match ultimo_resultado(linhas(saida@), |l: Seq<char>| mascara_linha_macos(l)) {
            Some(a) => a,
            None => seq![],
        }),
{
    let ls = separar_linhas(&caracteres(saida));
    let ghost todas = linhas(saida@);
    let ghost f = |l: Seq<char>| endereco_linha_macos(l);
    let ghost g = |l: Seq<char>| mascara_linha_macos(l);
    let mut endereco: Option<String> = None;
    let mut mascara: Option<String> = None;
    let mut i: usize = ls.len();
    proof { assert(todas.take(i as int) == todas); }
    while i > 0 && (endereco.is_none() || mascara.is_none())
        invariant
            i <= ls@.len(),
            vistas(ls@) == todas,
            todas == linhas(saida@),
            f == (|l: Seq<char>| endereco_linha_macos(l)),
            g == (|l: Seq<char>| mascara_linha_macos(l)),
            match endereco {
                Some(a) => ultimo_resultado(todas, f) == Some(a@),
                None => ultimo_resultado(todas, f) == ultimo_resultado(todas.take(i as int), f),
            },
            match mascara {
                Some(a) => ultimo_resultado(todas, g) == Some(a@),
                None => ultimo_resultado(todas, g) == ultimo_resultado(todas.take(i as int), g),
            },
        decreases i,
    {
        let l = &ls[i - 1];
        proof {
            assert(todas.take(i as int).last() == l@);
            assert(todas.take(i as int).drop_last() == todas.take(i - 1));
        }
        if endereco.is_none() {
            match palavras_inet_macos_de(l) {
                Some(w) => {
                    proof { assert(vistas(w@)[0] == w@[0]@); }
                    endereco = Some(texto_de(&w[0]));
                },
                None => {},
            }
        }
        if mascara.is_none() {
            mascara = mascara_de_linha_macos(l);
        }
        i -= 1;
    }
    let a = match endereco { Some(a) => a, None => String::new() };
    let m = match mascara { Some(m) => m, None => String::new() };
    (a, m)
}

/// On macOS, the gateway on the default-route line of `netstat -rn -f inet`: its second word,
/// or nothing when the line has fewer than two.
pub open spec fn gateway_linha_macos(l: Seq<char>) -> Option<Seq<char>> {
    if comeca_com(l, "default"@) || comeca_com(l, "0.0.0.0"@) {
        let w = palavras(l);
        Some(if w.len() >= 2 { w[1] } else { seq![] })
    } else {
        None
    }
}

/// The default gateway in the output of `netstat -rn -f inet` (macOS): from the first line
/// beginning with `default` or `0.0.0.0`; empty when there is none.
pub fn gateway_macos(saida: &str) -> (r: String)
    ensures
        r@ == (match primeiro_resultado(linhas(saida@), |l: Seq<char>| gateway_linha_macos(l)) {
            Some(a) => a,
            None => seq![],
        }),
{
    let ls = separar_linhas(&caracteres(saida));
    let ghost todas = linhas(saida@);
    let ghost f = |l: Seq<char>| gateway_linha_macos(l);
    let mut i: usize = 0;
    proof { assert(todas.skip(0) == todas); }
    while i < ls.len()
        invariant
            i <= ls@.len(),
            vistas(ls@) == todas,
            todas == linhas(saida@),
            f == (|l: Seq<char>| gateway_linha_macos(l)),
            primeiro_resultado(todas, f) == primeiro_resultado(todas.skip(i as int), f),
        decreases ls.len() - i,
    {
        proof {
            lemma_primeiro_resultado_passo(todas, f, i as int);
            assert(todas[i as int] == ls@[i as int]@);
        }
        let l = &ls[i];
        if comeca_str(l, "default") || comeca_str(l, "0.0.0.0") {
            let w = separar_palavras(l);
            proof { assert(vistas(w@) == palavras(l@)); }
            if w.len() >= 2 {
                proof { assert(vistas(w@)[1] == w@[1]@); }
                return texto_de(&w[1]);
            } else {
                return String::new();
            }
        }
        i += 1;
    }
    proof { assert(todas.skip(i as int) =~= seq![]); }
    String::new()
}

/// On macOS, the name server on a line `nameserver[0] : a.b.c.d` of `scutil --dns`.
pub open spec fn dns_linha_scutil(l: Seq<char>) -> Option<Seq<char>> {
    if comeca_com(apara(l), "nameserver["@) {
        match segundo_pedaco(l, " : "@) {
            Some(a) => Some(apara(a)),
            None => None,
        }
    } else {
        None
    }
}

/// The name servers of the lines of `scutil --dns`, each once, in order; empty ones skipped.
pub open spec fn dns_das_linhas_scutil(ls: Seq<Seq<char>>) -> Seq<Seq<char>>
    decreases ls.len(),
{
    if ls.len() == 0 {
        seq![]
    } else {
        let p = dns_das_linhas_scutil(ls.drop_last());
        match dns_linha_scutil(ls.last()) {
            Some(a) => if a.len() > 0 {
                com_unico(p, a)
            } else {
                p
            },
            None => p,
        }
    }
}

/// The name servers in the output of `scutil --dns` (macOS).
pub fn dns_scutil(saida: &str) -> (r: Vec<String>)
    ensures
        vistas_textos(r@) == dns_das_linhas_scutil(linhas(saida@)),
{
    let ls = separar_linhas(&caracteres(saida));
    let ghost todas = linhas(saida@);
    let sep = caracteres(" : ");
    proof { reveal_strlit(" : "); }
    let mut r: Vec<String> = Vec::new();
    let mut i: usize = 0;
    proof { assert(vistas_textos(r@) =~= seq![]); }
    while i < ls.len()
        invariant
            i <= ls@.len(),
            vistas(ls@) == todas,
            sep@ == " : "@,
            sep@.len() == 3,
            vistas_textos(r@) == dns_das_linhas_scutil(todas.take(i as int)),
        decreases ls.len() - i,
    {
        proof {
            assert(todas.take(i + 1).drop_last() == todas.take(i as int));
            assert(todas.take(i + 1).last() == ls@[i as int]@);
        }
        let l = &ls[i];
        let t = aparar(l);
        if comeca_str(&t, "nameserver[") {
            match segundo_pedaco_de(l, &sep) {
                Some(a) => {
                    let e = aparar(&a);
                    if e.len() > 0 {
                        acrescentar_unico(&mut r, &e);
                    }
                },
                None => {},
            }
        }
        i += 1;
    }
    proof { assert(todas.take(i as int) == todas); }
    r
}

/// On macOS, a device on a line `? (a.b.c.d) at aa:bb:... on en0 ...` of `arp -a`: not an
/// incomplete, broadcast or multicast entry, not the machine itself, not a MAC address shorter
/// than 17 bytes.
pub open spec fn dispositivo_arp_macos(l: Seq<char>, local_ip: Seq<char>) -> Option<(Seq<char>, Seq<char>)> {
    if contem(l, "(incomplete)"@) || contem(l, "ff:ff:ff:ff:ff:ff"@) || contem(l, "224.0.0"@) {
        None
    } else {
        let w = palavras(l);
        if w.len() < 4 {
            None
        } else {
            let ip = sem_parenteses(w[1]);
            let mac = w[3];
            if bytes_utf8(mac) < 17 || ip == local_ip || contem(mac, "(incomplete)"@) {
                None
            } else {
                Some((ip, mac))
            }
        }
    }
}

/// The devices in the output of `arp -a` (macOS), without vendors.
pub fn dispositivos_arp_macos(saida: &str, local_ip: &str) -> (r: Vec<DeviceInfo>)
    ensures
        vistas_dispositivos(r@) == dispositivos_macos(linhas(saida@), local_ip@),
        forall|i: int| 0 <= i < r@.len() ==> r@[i].vendor is None,
{
    let ls = separar_linhas(&caracteres(saida));
    let ip_local = caracteres(local_ip);
    let ghost todas = linhas(saida@);
    let ghost f = |l: Seq<char>| dispositivo_arp_macos(l, local_ip@);
    let mut r: Vec<DeviceInfo> = Vec::new();
    let mut i: usize = 0;
    proof { assert(vistas_dispositivos(r@) =~= seq![]); }
    while i < ls.len()
        invariant
            i <= ls@.len(),
            vistas(ls@) == todas,
            todas == linhas(saida@),
            ip_local@ == local_ip@,
            f == (|l: Seq<char>| dispositivo_arp_macos(l, local_ip@)),
            vistas_dispositivos(r@) == coleta_dispositivos(todas.take(i as int), f),
            forall|k: int| 0 <= k < r@.len() ==> r@[k].vendor is None,
        decreases ls.len() - i,
    {
        proof {
            assert(todas.take(i + 1).drop_last() == todas.take(i as int));
            assert(todas.take(i + 1).last() == ls@[i as int]@);
        }
        let l = &ls[i];
        if !(contem_str(l, "(incomplete)") || contem_str(l, "ff:ff:ff:ff:ff:ff") || contem_str(l, "224.0.0")) {
            let w = separar_palavras(l);
            proof { assert(vistas(w@) == palavras(l@)); }
            if w.len() >= 4 {
                proof {
                    assert(vistas(w@)[1] == w@[1]@);
                    assert(vistas(w@)[3] == w@[3]@);
                }
                let ip = tirar_parenteses(&w[1]);
                let mac = &w[3];
                if !(menos_bytes_que(mac, 17) || iguais(&ip, &ip_local) || contem_str(mac, "(incomplete)")) {
                    let d = DeviceInfo { ip: texto_de(&ip), mac: texto_de(mac), vendor: None };
                    let ghost antes = r@;
                    r.push(d);
                    proof { assert(vistas_dispositivos(r@) =~= vistas_dispositivos(antes).push(vista_dispositivo(d))); }
                }
            }
        }
        i += 1;
    }
    proof { assert(todas.take(i as int) == todas); }
    r
}


/// On Windows, the value after the dots of a line `Label . . . : value` of `ipconfig`: the
/// last `:`-separated piece, trimmed; none when there is no `:`.
pub open spec fn valor_ipconfig(resto: Seq<char>) -> Option<Seq<char>> {
    let ps = divide(resto, ':');
    if ps.len() >= 2 {
        Some(apara(ps.last()))
    } else {
        None
    }
}

/// What reading `ipconfig` (Windows) has found so far: address, mask, gateway, name servers,
/// and whether the lines being read continue the `DNS Servers` entry.
pub open spec fn passo_ipconfig(
    e: (Seq<char>, Seq<char>, Seq<char>, Seq<Seq<char>>, bool),
    l: Seq<char>,
) -> (Seq<char>, Seq<char>, Seq<char>, Seq<Seq<char>>, bool) {
    let t = apara(l);
    let local = match sem_prefixo(t, "IPv4 Address"@) {
        Some(r) => match valor_ipconfig(r) {
            Some(v) => v,
            None => e.0,
        },
        None => e.0,
    };
    let mascara = match sem_prefixo(t, "Subnet Mask"@) {
        Some(r) => match valor_ipconfig(r) {
            Some(v) => v,
            None => e.1,
        },
        None => e.1,
    };
    let gateway = match sem_prefixo(t, "Default Gateway"@) {
        Some(r) => match valor_ipconfig(r) {
            Some(v) => if e.2.len() == 0 { v } else { e.2 },
            None => e.2,
        },
        None => e.2,
    };
    if comeca_com(t, "DNS Servers"@) {
        (local, mascara, gateway, e.3, true)
    } else {
        let capturando = e.4 && t.len() > 0;
        let dns = if capturando && !termina_com(t, ":"@) {
            com_unico(e.3, t)
        } else {
            e.3
        };
        (local, mascara, gateway, dns, capturando)
    }
}

/// The state after reading the lines from the start.
pub open spec fn ipconfig_das_linhas(ls: Seq<Seq<char>>) -> (Seq<char>, Seq<char>, Seq<char>, Seq<Seq<char>>, bool)
    decreases ls.len(),
{
    if ls.len() == 0 {
        (seq![], seq![], seq![], seq![], false)
    } else {
        passo_ipconfig(ipconfig_das_linhas(ls.drop_last()), ls.last())
    }
}

fn valor_ipconfig_de(resto: &[char]) -> (r: Option<Vec<char>>)
    ensures
        match r {
            Some(v) => valor_ipconfig(resto@) == Some(v@),
            None => valor_ipconfig(resto@) is None,
        },
{
    let ps = dividir(resto, ':');
    if ps.len() >= 2 {
        proof { assert(vistas(ps@).last() == ps@[ps@.len() - 1]@); }
        Some(aparar(&ps[ps.len() - 1]))
    } else {
        None
    }
}

/// Address, mask, gateway and name servers in the output of `ipconfig` (Windows): the last
/// `IPv4 Address` and `Subnet Mask` entries, the first `Default Gateway` entry that gives a
/// value, and the addresses on the lines that follow a `DNS Servers` entry up to a blank line.
pub fn analisar_ipconfig(saida: &str) -> (r: (String, String, String, Vec<String>))
    ensures
        ({
            let e = ipconfig_das_linhas(linhas(saida@));
            r.0@ == e.0 && r.1@ == e.1 && r.2@ == e.2 && vistas_textos(r.3@) == e.3
        }),
{
    let ls = separar_linhas(&caracteres(saida));
    let ghost todas = linhas(saida@);
    let mut local: Vec<char> = Vec::new();
    let mut mascara: Vec<char> = Vec::new();
    let mut gateway: Vec<char> = Vec::new();
    let mut dns: Vec<String> = Vec::new();
    let mut capturando = false;
    let mut i: usize = 0;
    proof {
        assert(todas.take(0) =~= seq![]);
        assert(vistas_textos(dns@) =~= seq![]);
    }
    while i < ls.len()
        invariant
            i <= ls@.len(),
            vistas(ls@) == todas,
            ({
                let e = ipconfig_das_linhas(todas.take(i as int));
                local@ == e.0 && mascara@ == e.1 && gateway@ == e.2 && vistas_textos(dns@) == e.3
                    && capturando == e.4
            }),
        decreases ls.len() - i,
    {
        proof {
            assert(todas.take(i + 1).drop_last() == todas.take(i as int));
            assert(todas.take(i + 1).last() == ls@[i as int]@);
        }
        let t = aparar(&ls[i]);
        match tirar_prefixo(&t, "IPv4 Address") {
            Some(r) => match valor_ipconfig_de(&r) {
                Some(v) => { local = v; },
                None => {},
            },
            None => {},
        }
        match tirar_prefixo(&t, "Subnet Mask") {
            Some(r) => match valor_ipconfig_de(&r) {
                Some(v) => { mascara = v; },
                None => {},
            },
            None => {},
        }
        match tirar_prefixo(&t, "Default Gateway") {
            Some(r) => match valor_ipconfig_de(&r) {
                Some(v) => if gateway.len() == 0 { gateway = v; },
                None => {},
            },
            None => {},
        }
        if comeca_str(&t, "DNS Servers") {
            capturando = true;
        } else {
            capturando = capturando && t.len() > 0;
            let dp: Vec<char> = vec![':'];
            proof {
                reveal_strlit(":");
                assert(dp@ =~= ":"@);
            }
            if capturando && !termina(&t, &dp) {
                acrescentar_unico(&mut dns, &t);
            }
        }
        i += 1;
    }
    proof { assert(todas.take(i as int) == todas); }
    (texto_de(&local), texto_de(&mascara), texto_de(&gateway), dns)
}

/// On Windows, a device on a line `a.b.c.d  aa-bb-...  dynamic` of `arp -a`: not a `---`
/// entry, not the machine itself, not a MAC address shorter than 17 bytes.
pub open spec fn dispositivo_arp_windows(l: Seq<char>, local_ip: Seq<char>) -> Option<(Seq<char>, Seq<char>)> {
    let w = palavras(l);
    if w.len() < 3 {
        None
    } else {
        let ip = w[0];
        let mac = w[1];
        if mac == "---"@ || ip == local_ip || bytes_utf8(mac) < 17 {
            None
        } else {
            Some((ip, mac))
        }
    }
}

/// The devices in the output of `arp -a` (Windows), without vendors.
pub fn dispositivos_arp_windows(saida: &str, local_ip: &str) -> (r: Vec<DeviceInfo>)
    ensures
        vistas_dispositivos(r@) == dispositivos_windows(linhas(saida@), local_ip@),
        forall|i: int| 0 <= i < r@.len() ==> r@[i].vendor is None,
{
    let ls = separar_linhas(&caracteres(saida));
    let ip_local = caracteres(local_ip);
    let tracos = caracteres("---");
    let ghost todas = linhas(saida@);
    let ghost f = |l: Seq<char>| dispositivo_arp_windows(l, local_ip@);
    let mut r: Vec<DeviceInfo> = Vec::new();
    let mut i: usize = 0;
    proof { assert(vistas_dispositivos(r@) =~= seq![]); }
    while i < ls.len()
        invariant
            i <= ls@.len(),
            vistas(ls@) == todas,
            todas == linhas(saida@),
            ip_local@ == local_ip@,
            tracos@ == "---"@,
            f == (|l: Seq<char>| dispositivo_arp_windows(l, local_ip@)),
            vistas_dispositivos(r@) == coleta_dispositivos(todas.take(i as int), f),
            forall|k: int| 0 <= k < r@.len() ==> r@[k].vendor is None,
        decreases ls.len() - i,
    {
        proof {
            assert(todas.take(i + 1).drop_last() == todas.take(i as int));
            assert(todas.take(i + 1).last() == ls@[i as int]@);
        }
        let w = separar_palavras(&ls[i]);
        proof { assert(vistas(w@) == palavras(ls@[i as int]@)); }
        if w.len() >= 3 {
            proof {
                assert(vistas(w@)[0] == w@[0]@);
                assert(vistas(w@)[1] == w@[1]@);
            }
            let ip = &w[0];
            let mac = &w[1];
            if !(iguais(mac, &tracos) || iguais(ip, &ip_local) || menos_bytes_que(mac, 17)) {
                let d = DeviceInfo { ip: texto_de(ip), mac: texto_de(mac), vendor: None };
                let ghost antes = r@;
                r.push(d);
                proof { assert(vistas_dispositivos(r@) =~= vistas_dispositivos(antes).push(vista_dispositivo(d))); }
            }
        }
        i += 1;
    }
    proof { assert(todas.take(i as int) == todas); }
    r
}

/// What the IP lookup answer holds under the keys that the diagnostics read; `None` where a key
/// is missing or does not hold a string.
#[derive(Debug, PartialEq, Eq)]
pub struct CamposIp {
    pub ip: Option<String>,
    pub org: Option<String>,
    pub city: Option<String>,
    pub country_name: Option<String>,
    pub timezone: Option<String>,
    pub asn: Option<String>,
}

/// The connection facts that the internet diagnostics report, latency aside.
#[derive(Debug, PartialEq, Eq)]
pub struct DiagnosticoIp {
    pub online: bool,
    pub public_ip: String,
    pub isp: String,
    pub city: String,
    pub country: String,
    pub org: String,
    pub timezone: String,
    pub asn: String,
}


/// The diagnostics from the answers of the two IP lookups: `primaria` is the answer of the main
/// lookup (`None` when it failed) and `reserva` that of the fallback, which is asked only when
/// the main one failed (`None` when it failed too; else the `ip` it holds). Online when either
/// answered; the main answer fills every field, the provider and the organisation both from
/// `org`; the fallback fills the public address only; a missing field is empty.
pub fn diagnostico_ip(primaria: Option<CamposIp>, reserva: Option<Option<String>>) -> (r: DiagnosticoIp)
    ensures
        r.online == (primaria is Some || reserva is Some),
        r.public_ip@.len() > 0 ==> r.online,
        match primaria {
            Some(c) => {
                &&& r.public_ip@ == texto_ou_vazio(c.ip)
                &&& r.isp@ == texto_ou_vazio(c.org)
                &&& r.city@ == texto_ou_vazio(c.city)
                &&& r.country@ == texto_ou_vazio(c.country_name)
                &&& r.org@ == texto_ou_vazio(c.org)
                &&& r.timezone@ == texto_ou_vazio(c.timezone)
                &&& r.asn@ == texto_ou_vazio(c.asn)
            },
            None => {
                &&& r.public_ip@ == (match reserva {
                    Some(ip) => texto_ou_vazio(ip),
                    None => Seq::empty(),
                })
                &&& r.isp@.len() == 0
                &&& r.city@.len() == 0
                &&& r.country@.len() == 0
                &&& r.org@.len() == 0
                &&& r.timezone@.len() == 0
                &&& r.asn@.len() == 0
            },
        },
{
    match primaria {
        Some(c) => {
            let org = texto_ou_vazio_de(c.org);
            let isp = org.clone();
            DiagnosticoIp {
                online: true,
                public_ip: texto_ou_vazio_de(c.ip),
                isp,
                city: texto_ou_vazio_de(c.city),
                country: texto_ou_vazio_de(c.country_name),
                org,
                timezone: texto_ou_vazio_de(c.timezone),
                asn: texto_ou_vazio_de(c.asn),
            }
        },
        None => {
            let (online, public_ip) = match reserva {
                Some(ip) => (true, texto_ou_vazio_de(ip)),
                None => (false, String::new()),
            };
            DiagnosticoIp {
                online,
                public_ip,
                isp: String::new(),
                city: String::new(),
                country: String::new(),
                org: String::new(),
                timezone: String::new(),
                asn: String::new(),
            }
        },
    }
}


/// A device found in an ARP table: its MAC address takes at least 17 bytes and its address is
/// not the machine's own.
pub open spec fn dispositivo_aceitavel(d: (Seq<char>, Seq<char>), local_ip: Seq<char>) -> bool {
    bytes_utf8(d.1) >= 17 && d.0 != local_ip
}

proof fn lemma_coleta_aceitavel(
    ls: Seq<Seq<char>>,
    f: spec_fn(Seq<char>) -> Option<(Seq<char>, Seq<char>)>,
    local_ip: Seq<char>,
)
    requires
        forall|l: Seq<char>| #[trigger] f(l) matches Some(d) ==> dispositivo_aceitavel(d, local_ip),
    ensures
        forall|i: int| 0 <= i < coleta_dispositivos(ls, f).len()
            ==> dispositivo_aceitavel(#[trigger] coleta_dispositivos(ls, f)[i], local_ip),
    decreases ls.len(),
{
    if ls.len() > 0 {
        lemma_coleta_aceitavel(ls.drop_last(), f, local_ip);
        let p = coleta_dispositivos(ls.drop_last(), f);
        if let Some(d) = f(ls.last()) {
            assert forall|i: int| 0 <= i < p.push(d).len() implies dispositivo_aceitavel(#[trigger] p.push(d)[i], local_ip) by {
                if i < p.len() {
                    assert(p.push(d)[i] == p[i]);
                }
            }
        }
    }
}

/// The devices that the lines of an ARP table give, on Linux.
pub open spec fn dispositivos_linux(ls: Seq<Seq<char>>, local_ip: Seq<char>) -> Seq<(Seq<char>, Seq<char>)> {
    coleta_dispositivos(ls, |l: Seq<char>| dispositivo_arp_linux(l, local_ip))
}

/// The devices that the lines of an ARP table give, on macOS.
pub open spec fn dispositivos_macos(ls: Seq<Seq<char>>, local_ip: Seq<char>) -> Seq<(Seq<char>, Seq<char>)> {
    coleta_dispositivos(ls, |l: Seq<char>| dispositivo_arp_macos(l, local_ip))
}

/// The devices that the lines of an ARP table give, on Windows.
pub open spec fn dispositivos_windows(ls: Seq<Seq<char>>, local_ip: Seq<char>) -> Seq<(Seq<char>, Seq<char>)> {
    coleta_dispositivos(ls, |l: Seq<char>| dispositivo_arp_windows(l, local_ip))
}

/// Every device that the ARP table of any of the three systems gives has a MAC address of at
/// least 17 bytes and an address other than the machine's own.
pub proof fn lei_dispositivos_arp_aceitaveis(ls: Seq<Seq<char>>, local_ip: Seq<char>)
    ensures
        forall|i: int| 0 <= i < dispositivos_linux(ls, local_ip).len()
            ==> dispositivo_aceitavel(#[trigger] dispositivos_linux(ls, local_ip)[i], local_ip),
        forall|i: int| 0 <= i < dispositivos_macos(ls, local_ip).len()
            ==> dispositivo_aceitavel(#[trigger] dispositivos_macos(ls, local_ip)[i], local_ip),
        forall|i: int| 0 <= i < dispositivos_windows(ls, local_ip).len()
            ==> dispositivo_aceitavel(#[trigger] dispositivos_windows(ls, local_ip)[i], local_ip),
{
    lemma_coleta_aceitavel(ls, |l: Seq<char>| dispositivo_arp_linux(l, local_ip), local_ip);
    lemma_coleta_aceitavel(ls, |l: Seq<char>| dispositivo_arp_macos(l, local_ip), local_ip);
    lemma_coleta_aceitavel(ls, |l: Seq<char>| dispositivo_arp_windows(l, local_ip), local_ip);
}


proof fn lemma_decimal_sem_ponto(n: nat)
    ensures
        decimal(n).len() > 0,
        forall|i: int| 0 <= i < decimal(n).len() ==> decimal(n)[i] != '.',
{
    lemma_decimal_le(n);
    assert forall|i: int| 0 <= i < decimal(n).len() implies decimal(n)[i] != '.' by {
        assert(eh_digito(decimal(n)[i]));
    }
}

/// Reading the octets back out of `a.b.c.d` gives the four numbers.
pub proof fn lemma_octetos_ipv4(a: nat, b: nat, c: nat, d: nat)
    requires
        a <= 255,
        b <= 255,
        c <= 255,
        d <= 255,
    ensures
        octetos(texto_ipv4(a, b, c, d)) == seq![a as u8, b as u8, c as u8, d as u8],
{
    let (da, db, dc, dd) = (decimal(a), decimal(b), decimal(c), decimal(d));
    lemma_decimal_sem_ponto(a);
    lemma_decimal_sem_ponto(b);
    lemma_decimal_sem_ponto(c);
    lemma_decimal_sem_ponto(d);
    lemma_divide_sem_separador(da, '.');
    let s1 = da + seq!['.'] + db;
    lemma_divide_junta(da, db, '.');
    let s2 = s1 + seq!['.'] + dc;
    lemma_divide_junta(s1, dc, '.');
    lemma_divide_junta(s2, dd, '.');
    let ps = seq![da, db, dc, dd];
    assert(divide(texto_ipv4(a, b, c, d), '.') =~= ps);
    lemma_numero_do_decimal(a, 255);
    lemma_numero_do_decimal(b, 255);
    lemma_numero_do_decimal(c, 255);
    lemma_numero_do_decimal(d, 255);
    assert(ps.drop_last() =~= seq![da, db, dc]);
    assert(seq![da, db, dc].drop_last() =~= seq![da, db]);
    assert(seq![da, db].drop_last() =~= seq![da]);
    assert(seq![da].drop_last() =~= Seq::<Seq<char>>::empty());
    assert(octetos_das_partes(Seq::<Seq<char>>::empty()) =~= Seq::<u8>::empty());
    assert(seq![da].last() == da);
    assert(octetos_das_partes(seq![da]) =~= seq![a as u8]);
    assert(octetos_das_partes(seq![da, db]) =~= seq![a as u8, b as u8]);
    assert(octetos_das_partes(seq![da, db, dc]) =~= seq![a as u8, b as u8, c as u8]);
    assert(octetos_das_partes(ps) =~= seq![a as u8, b as u8, c as u8, d as u8]);
}

/// The prefix length of the four bytes of the mask of `p` leading ones.
pub open spec fn bits_da_mascara(p: u8) -> nat {
    bits_um(((mascara_prefixo(p) >> 24u32) & 0xff) as u8) + bits_um(((mascara_prefixo(p) >> 16u32) & 0xff) as u8)
        + bits_um(((mascara_prefixo(p) >> 8u32) & 0xff) as u8) + bits_um((mascara_prefixo(p) & 0xff) as u8)
}

proof fn lemma_bytes_da_mascara(p: u8)
    by (bit_vector)
    requires
        1 <= p <= 31,
    ensures
        ((0xFFFF_FFFFu32 << ((32 - p) as u32)) >> 24u32) & 0xff
            == (if p >= 8 { 0xffu32 } else { (0xffu32 << ((8 - p) as u32)) & 0xff }),
        ((0xFFFF_FFFFu32 << ((32 - p) as u32)) >> 16u32) & 0xff
            == (if p >= 16 { 0xffu32 } else if p <= 8 { 0u32 } else { (0xffu32 << ((16 - p) as u32)) & 0xff }),
        ((0xFFFF_FFFFu32 << ((32 - p) as u32)) >> 8u32) & 0xff
            == (if p >= 24 { 0xffu32 } else if p <= 16 { 0u32 } else { (0xffu32 << ((24 - p) as u32)) & 0xff }),
        (0xFFFF_FFFFu32 << ((32 - p) as u32)) & 0xff
            == (if p <= 24 { 0u32 } else { (0xffu32 << ((32 - p) as u32)) & 0xff }),
{
}

proof fn lemma_uns_a_esquerda(j: u32)
    by (bit_vector)
    requires
        1 <= j <= 7,
    ensures
        j == 1 ==> (0xffu32 << ((8 - j) as u32)) & 0xff == 0x80,
        j == 2 ==> (0xffu32 << ((8 - j) as u32)) & 0xff == 0xc0,
        j == 3 ==> (0xffu32 << ((8 - j) as u32)) & 0xff == 0xe0,
        j == 4 ==> (0xffu32 << ((8 - j) as u32)) & 0xff == 0xf0,
        j == 5 ==> (0xffu32 << ((8 - j) as u32)) & 0xff == 0xf8,
        j == 6 ==> (0xffu32 << ((8 - j) as u32)) & 0xff == 0xfc,
        j == 7 ==> (0xffu32 << ((8 - j) as u32)) & 0xff == 0xfe,
{
}

proof fn lemma_bits_uns(j: u32)
    requires
        1 <= j <= 7,
    ensures
        bits_um(((0xffu32 << ((8 - j) as u32)) & 0xff) as u8) == j,
{
    lemma_uns_a_esquerda(j);
    reveal_with_fuel(bits_um, 9);
    assert(bits_um(0x80u8) == 1);
    assert(bits_um(0xc0u8) == 2);
    assert(bits_um(0xe0u8) == 3);
    assert(bits_um(0xf0u8) == 4);
    assert(bits_um(0xf8u8) == 5);
    assert(bits_um(0xfcu8) == 6);
    assert(bits_um(0xfeu8) == 7);
}

proof fn lemma_bits_da_mascara(p: u8)
    ensures
        bits_da_mascara(p) == (if p < 32 { p as nat } else { 32 }),
{
    reveal_with_fuel(bits_um, 9);
    assert(bits_um(0xffu8) == 8);
    assert(bits_um(0u8) == 0);
    if p == 0 {
        assert(((0u32 >> 24u32) & 0xff) as u8 == 0u8) by (bit_vector);
        assert(((0u32 >> 16u32) & 0xff) as u8 == 0u8) by (bit_vector);
        assert(((0u32 >> 8u32) & 0xff) as u8 == 0u8) by (bit_vector);
        assert((0u32 & 0xff) as u8 == 0u8) by (bit_vector);
    } else if p >= 32 {
        assert(((0xFFFF_FFFFu32 >> 24u32) & 0xff) as u8 == 0xffu8) by (bit_vector);
        assert(((0xFFFF_FFFFu32 >> 16u32) & 0xff) as u8 == 0xffu8) by (bit_vector);
        assert(((0xFFFF_FFFFu32 >> 8u32) & 0xff) as u8 == 0xffu8) by (bit_vector);
        assert((0xFFFF_FFFFu32 & 0xff) as u8 == 0xffu8) by (bit_vector);
    } else {
        lemma_bytes_da_mascara(p);
        if p < 8 {
            lemma_bits_uns(p as u32);
        } else if 8 < p < 16 {
            lemma_bits_uns((p - 8) as u32);
        } else if 16 < p < 24 {
            lemma_bits_uns((p - 16) as u32);
        } else if 24 < p {
            lemma_bits_uns((p - 24) as u32);
        }
    }
}

/// The mask that `cidr_to_mask` writes for a prefix length reads back, as `calc_network_range`
/// reads a mask, as four octets with that many leading ones (32 for any length past 32): the
/// network range of an address under it ends in `/` and that length.
pub proof fn lei_mascara_do_prefixo(prefixo: u8)
    ensures
        octetos(texto_mascara(prefixo)).len() == 4,
        comprimento_prefixo(octetos(texto_mascara(prefixo))) == (if prefixo < 32 { prefixo as nat } else { 32 }),
{
    let m = mascara_prefixo(prefixo);
    let b0 = ((m >> 24u32) & 0xff) as nat;
    let b1 = ((m >> 16u32) & 0xff) as nat;
    let b2 = ((m >> 8u32) & 0xff) as nat;
    let b3 = (m & 0xff) as nat;
    assert(((m >> 24u32) & 0xff) <= 0xff) by (bit_vector);
    assert(((m >> 16u32) & 0xff) <= 0xff) by (bit_vector);
    assert(((m >> 8u32) & 0xff) <= 0xff) by (bit_vector);
    assert((m & 0xff) <= 0xff) by (bit_vector);
    lemma_octetos_ipv4(b0, b1, b2, b3);
    lemma_bits_da_mascara(prefixo);
}


proof fn lemma_difusao_mesma_rede(i: u8, m: u8)
    by (bit_vector)
    ensures
        (i | !m) & m == i & m,
{
}

/// The broadcast address lies in the network it is computed for: the network range of the
/// broadcast address under the same mask is the network range of the address itself (both are
/// empty when the address or the mask does not give four octets).
pub proof fn lei_difusao_na_propria_rede(ip: Seq<char>, mask: Seq<char>)
    ensures
        faixa_de_rede(difusao(ip, mask), mask) == faixa_de_rede(ip, mask),
{
    let i = octetos(ip);
    let m = octetos(mask);
    if i.len() != 4 || m.len() != 4 {
        assert(divide(Seq::<char>::empty(), '.') == seq![Seq::<char>::empty()]);
        assert(seq![Seq::<char>::empty()].drop_last() =~= Seq::<Seq<char>>::empty());
        assert(numero_ate(Seq::<char>::empty(), u8::MAX as nat) is None);
        assert(seq![Seq::<char>::empty()].last() == Seq::<char>::empty());
        assert(octetos_das_partes(Seq::<Seq<char>>::empty()) =~= Seq::<u8>::empty());
        assert(octetos(Seq::<char>::empty()).len() == 0);
    } else {
        lemma_octetos_ipv4((i[0] | !m[0]) as nat, (i[1] | !m[1]) as nat, (i[2] | !m[2]) as nat, (i[3] | !m[3]) as nat);
        lemma_difusao_mesma_rede(i[0], m[0]);
        lemma_difusao_mesma_rede(i[1], m[1]);
        lemma_difusao_mesma_rede(i[2], m[2]);
        lemma_difusao_mesma_rede(i[3], m[3]);
    }
}


proof fn lemma_primeiro_nunca(ls: Seq<Seq<char>>, f: spec_fn(Seq<char>) -> Option<Seq<char>>, x: Seq<char>)
    requires
        forall|l: Seq<char>| #[trigger] f(l) != Some(x),
    ensures
        primeiro_resultado(ls, f) != Some(x),
    decreases ls.len(),
{
    if ls.len() > 0 {
        lemma_primeiro_nunca(ls.drop_first(), f, x);
        assert(f(ls[0]) != Some(x));
    }
}

proof fn lemma_ultimo_nunca(ls: Seq<Seq<char>>, f: spec_fn(Seq<char>) -> Option<Seq<char>>, x: Seq<char>)
    requires
        forall|l: Seq<char>| #[trigger] f(l) != Some(x),
    ensures
        ultimo_resultado(ls, f) != Some(x),
    decreases ls.len(),
{
    if ls.len() > 0 {
        lemma_ultimo_nunca(ls.drop_last(), f, x);
        assert(f(ls.last()) != Some(x));
    }
}

/// The local address that the Linux (`ip -4 addr show`) and macOS (`ifconfig`) readers find is
/// never the loopback address `127.0.0.1`, whatever the output.
pub proof fn lei_endereco_local_nao_e_loopback(ls: Seq<Seq<char>>)
    ensures
        primeiro_resultado(ls, |l: Seq<char>| ip_linha_linux(l)) != Some("127.0.0.1"@),
        ultimo_resultado(ls, |l: Seq<char>| endereco_linha_macos(l)) != Some("127.0.0.1"@),
{
    lemma_primeiro_nunca(ls, |l: Seq<char>| ip_linha_linux(l), "127.0.0.1"@);
    lemma_ultimo_nunca(ls, |l: Seq<char>| endereco_linha_macos(l), "127.0.0.1"@);
}



/// On macOS, a line `SSID : ` followed by a name gives the whole name, trimmed, with the spaces
/// inside it kept; a name that is empty or begins with `<` gives no SSID.
pub proof fn lei_ssid_macos_nome_inteiro(l: Seq<char>, v: Seq<char>)
    requires
        apara(l) == "SSID : "@ + v,
    ensures
        apara(v).len() > 0 && apara(v)[0] != '<' ==> ssid_linha_macos(l) == Some(apara(v)),
        apara(v).len() == 0 || apara(v)[0] == '<' ==> ssid_linha_macos(l) is None,
{
    lemma_sem_prefixo_junta("SSID : "@, v);
}



/// A separator that `netsh` puts between a label and its value.
pub open spec fn eh_separador(c: char) -> bool {
    c == ' ' || c == ':' || c == '\t'
}

proof fn lemma_sem_separadores(sep: Seq<char>, v: Seq<char>)
    requires
        forall|i: int| 0 <= i < sep.len() ==> eh_separador(#[trigger] sep[i]),
        v.len() == 0 || !eh_separador(v[0]),
    ensures
        sem_separadores_iniciais(sep + v) == v,
    decreases sep.len(),
{
    if sep.len() == 0 {
        assert(sep + v =~= v);
    } else {
        assert((sep + v)[0] == sep[0]);
        assert((sep + v).drop_first() =~= sep.drop_first() + v);
        lemma_sem_separadores(sep.drop_first(), v);
    }
}

/// On Windows, a line `SSID`, then spaces, colons or tabs, then a name gives the whole name,
/// trimmed, with the spaces inside it kept; an empty name gives no SSID.
pub proof fn lei_ssid_windows_nome_inteiro(l: Seq<char>, sep: Seq<char>, v: Seq<char>)
    requires
        apara(l) == "SSID"@ + sep + v,
        forall|i: int| 0 <= i < sep.len() ==> eh_separador(#[trigger] sep[i]),
        v.len() == 0 || !eh_separador(v[0]),
    ensures
        ssid_linha_windows(l) == (if apara(v).len() > 0 { Some(apara(v)) } else { None::<Seq<char>> }),
{
    assert("SSID"@ + sep + v =~= "SSID"@ + (sep + v));
    lemma_sem_prefixo_junta("SSID"@, sep + v);
    lemma_sem_separadores(sep, v);
}



proof fn lemma_colunas(a: Seq<char>, b: Seq<char>, resto: Seq<char>)
    requires
        eh_palavra(a),
    ensures
        palavras(a + seq![' '] + resto) == seq![a] + palavras(resto),
        eh_palavra(b) ==> palavras(a + seq![' '] + b) == seq![a, b],
{
    lemma_palavras_junta(a, resto);
    lemma_uma_palavra(a);
    if eh_palavra(b) {
        lemma_palavras_junta(a, b);
        lemma_uma_palavra(b);
        assert(seq![a] + seq![b] =~= seq![a, b]);
    }
}

/// On Linux, the gateway is the word that follows `default via ` on a route line.
pub proof fn lei_gateway_linux(g: Seq<char>, resto: Seq<char>)
    requires
        eh_palavra(g),
    ensures
        gateway_linha_linux("default via "@ + g + seq![' '] + resto) == Some(g),
        gateway_linha_linux("default via "@ + g) == Some(g),
{
    lemma_sem_prefixo_junta("default via "@, g + seq![' '] + resto);
    assert("default via "@ + g + seq![' '] + resto =~= "default via "@ + (g + seq![' '] + resto));
    lemma_colunas(g, g, resto);
    lemma_sem_prefixo_junta("default via "@, g);
    lemma_uma_palavra(g);
}

/// On Linux, an `inet` line gives the word after `inet ` as the local address, unless that word
/// is the loopback `127.0.0.1`.
pub proof fn lei_ip_linux(l: Seq<char>, a: Seq<char>, resto: Seq<char>)
    requires
        apara(l) == "inet "@ + a + seq![' '] + resto,
        eh_palavra(a),
    ensures
        ip_linha_linux(l) == (if a == "127.0.0.1"@ { None } else { Some(a) }),
{
    assert("inet "@ + a + seq![' '] + resto =~= "inet "@ + (a + seq![' '] + resto));
    lemma_sem_prefixo_junta("inet "@, a + seq![' '] + resto);
    lemma_colunas(a, a, resto);
}

/// On Linux, an `arp -n` line `address type hwaddress ...` gives the device at the first column
/// with the MAC address of the third, unless the entry is incomplete, is the machine itself or
/// its MAC address is shorter than 17 bytes.
pub proof fn lei_arp_linux(ip: Seq<char>, hw: Seq<char>, mac: Seq<char>, resto: Seq<char>, local_ip: Seq<char>)
    requires
        eh_palavra(ip),
        eh_palavra(hw),
        eh_palavra(mac),
    ensures
        dispositivo_arp_linux(ip + seq![' '] + hw + seq![' '] + mac + seq![' '] + resto, local_ip) == (if mac
            == "(incomplete)"@ || ip == local_ip || bytes_utf8(mac) < 17 {
            None
        } else {
            Some((ip, mac))
        }),
{
    let l = ip + seq![' '] + hw + seq![' '] + mac + seq![' '] + resto;
    lemma_colunas(mac, mac, resto);
    assert(l =~= ip + seq![' '] + (hw + seq![' '] + (mac + seq![' '] + resto)));
    lemma_colunas(hw, hw, mac + seq![' '] + resto);
    lemma_colunas(ip, ip, hw + seq![' '] + (mac + seq![' '] + resto));
    assert(palavras(l) =~= seq![ip, hw, mac] + palavras(resto));
}

/// On Windows, an `arp -a` line `address hwaddress type ...` gives the device at the first column
/// with the MAC address of the second, unless the entry is `---`, is the machine itself or its MAC
/// address is shorter than 17 bytes.
pub proof fn lei_arp_windows(ip: Seq<char>, mac: Seq<char>, tipo: Seq<char>, resto: Seq<char>, local_ip: Seq<char>)
    requires
        eh_palavra(ip),
        eh_palavra(mac),
        eh_palavra(tipo),
    ensures
        dispositivo_arp_windows(ip + seq![' '] + mac + seq![' '] + tipo + seq![' '] + resto, local_ip) == (if mac
            == "---"@ || ip == local_ip || bytes_utf8(mac) < 17 {
            None
        } else {
            Some((ip, mac))
        }),
{
    let l = ip + seq![' '] + mac + seq![' '] + tipo + seq![' '] + resto;
    lemma_colunas(tipo, tipo, resto);
    assert(l =~= ip + seq![' '] + (mac + seq![' '] + (tipo + seq![' '] + resto)));
    lemma_colunas(mac, mac, tipo + seq![' '] + resto);
    lemma_colunas(ip, ip, mac + seq![' '] + (tipo + seq![' '] + resto));
    assert(palavras(l) =~= seq![ip, mac, tipo] + palavras(resto));
}


/// Turning a MAC address into its lookup form works character by character: each `:` becomes
/// `-`, each space is dropped, every other character stays, so the form of a concatenation is the
/// concatenation of the forms.
pub proof fn lei_troca_separadores(x: Seq<char>, y: Seq<char>, c: char)
    ensures
        troca_separadores(x + y) == troca_separadores(x) + troca_separadores(y),
        troca_separadores(seq![':']) == seq!['-'],
        troca_separadores(seq![' ']) == Seq::<char>::empty(),
        c != ':' && c != ' ' ==> troca_separadores(seq![c]) == seq![c],
    decreases y.len(),
{
    assert(seq![c].drop_last() =~= Seq::<char>::empty());
    assert(seq![':'].drop_last() =~= Seq::<char>::empty());
    assert(seq![' '].drop_last() =~= Seq::<char>::empty());
    assert(troca_separadores(Seq::<char>::empty()) =~= Seq::<char>::empty());
    assert(seq![':'].last() == ':' && seq![' '].last() == ' ' && seq![c].last() == c);
    assert(Seq::<char>::empty().push('-') =~= seq!['-']);
    assert(Seq::<char>::empty().push(c) =~= seq![c]);
    if y.len() == 0 {
        assert(x + y =~= x);
        assert(troca_separadores(x) + troca_separadores(y) =~= troca_separadores(x));
    } else {
        lei_troca_separadores(x, y.drop_last(), c);
        assert((x + y).drop_last() =~= x + y.drop_last());
        assert((x + y).last() == y.last());
        let a = troca_separadores(x);
        let b = troca_separadores(y.drop_last());
        assert((a + b).push('-') =~= a + b.push('-'));
        assert((a + b).push(y.last()) =~= a + b.push(y.last()));
    }
}

} // verus!
