use vstd::prelude::*;

use crate::commands::wifi::{acrescenta_enderecos, dns_das_linhas_resolvectl, dns_das_linhas_resolv, dns_das_linhas_scutil, dns_linha_resolv, dns_linha_scutil};
use crate::texto::{com_unico, contem, palavras};

verus! {

/// No entry of `r` appears twice.
pub open spec fn sem_repeticoes(r: Seq<Seq<char>>) -> bool {
    forall|i: int, j: int| 0 <= i < j < r.len() ==> #[trigger] r[i] != #[trigger] r[j]
}

/// Line `k` of `ls` gives `a`.
pub open spec fn dado_na_linha(ls: Seq<Seq<char>>, f: spec_fn(Seq<char>) -> Option<Seq<char>>, a: Seq<char>, k: int) -> bool {
    0 <= k < ls.len() && f(ls[k]) == Some(a)
}

/// Some line gives `x`, and no line up to it gives `y`.
pub open spec fn antes(ls: Seq<Seq<char>>, f: spec_fn(Seq<char>) -> Option<Seq<char>>, x: Seq<char>, y: Seq<char>) -> bool {
    exists|k: int| #[trigger] dado_na_linha(ls, f, x, k) && forall|m: int| 0 <= m && m <= k ==> !#[trigger] dado_na_linha(ls, f, y, m)
}

/// `r` lists each non-empty value that some line of `ls` gives, once, in the order in which
/// they first appear: no repeats; a text is listed exactly when it is non-empty and some line
/// gives it; and of two entries, the earlier is given by a line that comes before every line
/// that gives the later.
pub open spec fn primeiras_ocorrencias(r: Seq<Seq<char>>, ls: Seq<Seq<char>>, f: spec_fn(Seq<char>) -> Option<Seq<char>>) -> bool {
    &&& sem_repeticoes(r)
    &&& forall|a: Seq<char>| #[trigger] r.contains(a) <==> (a.len() > 0 && exists|k: int| #[trigger] dado_na_linha(ls, f, a, k))
    &&& forall|i: int, j: int| 0 <= i < j < r.len() ==> #[trigger] antes(ls, f, r[i], r[j])
}

/// The non-empty values that the lines give, each once, in order.
pub open spec fn acumula_unicos(ls: Seq<Seq<char>>, f: spec_fn(Seq<char>) -> Option<Seq<char>>) -> Seq<Seq<char>>
    decreases ls.len(),
{
    if ls.len() == 0 {
        seq![]
    } else {
        let p = acumula_unicos(ls.drop_last(), f);
        match f(ls.last()) {
            Some(a) => if a.len() > 0 {
                com_unico(p, a)
            } else {
                p
            },
            None => p,
        }
    }
}

proof fn lemma_acumula_unicos(ls: Seq<Seq<char>>, f: spec_fn(Seq<char>) -> Option<Seq<char>>)
    ensures
        primeiras_ocorrencias(acumula_unicos(ls, f), ls, f),
    decreases ls.len(),
{
    let r = acumula_unicos(ls, f);
    if ls.len() == 0 {
        assert forall|a: Seq<char>| #[trigger] r.contains(a) <==> (a.len() > 0 && exists|k: int| #[trigger] dado_na_linha(ls, f, a, k)) by {
            assert(!r.contains(a));
        }
        assert(primeiras_ocorrencias(r, ls, f));
    } else {
        let d = ls.drop_last();
        let n = ls.len() - 1;
        let p = acumula_unicos(d, f);
        lemma_acumula_unicos(d, f);
        assert forall|a: Seq<char>, k: int| 0 <= k < n implies (#[trigger] dado_na_linha(ls, f, a, k) <==> dado_na_linha(d, f, a, k)) by {
            assert(d[k] == ls[k]);
        }
        let novo = match f(ls.last()) {
            Some(a) => a.len() > 0 && !p.contains(a),
            None => false,
        };
        if novo {
            let a = f(ls.last())->0;
            assert(r == p.push(a));
            assert(dado_na_linha(ls, f, a, n));
            assert forall|i: int, j: int| 0 <= i < j < r.len() implies #[trigger] r[i] != #[trigger] r[j] by {
                if j == p.len() {
                    assert(p.contains(p[i]));
                } else {
                    assert(r[i] == p[i] && r[j] == p[j]);
                }
            }
            assert forall|x: Seq<char>| #[trigger] r.contains(x) <==> (x.len() > 0 && exists|k: int| #[trigger] dado_na_linha(ls, f, x, k)) by {
                if r.contains(x) {
                    let t = choose|t: int| 0 <= t < r.len() && r[t] == x;
                    if t < p.len() {
                        assert(r[t] == p[t]);
                        assert(p.contains(x));
                        let k = choose|k: int| dado_na_linha(d, f, x, k);
                        assert(dado_na_linha(ls, f, x, k));
                    } else {
                        assert(dado_na_linha(ls, f, x, n));
                    }
                }
                if x.len() > 0 && exists|k: int| #[trigger] dado_na_linha(ls, f, x, k) {
                    let k = choose|k: int| dado_na_linha(ls, f, x, k);
                    if k < n {
                        assert(dado_na_linha(d, f, x, k));
                        assert(p.contains(x));
                        let t = choose|t: int| 0 <= t < p.len() && p[t] == x;
                        assert(r[t] == x);
                    } else {
                        assert(r[r.len() - 1] == x);
                    }
                }
            }
            assert forall|i: int, j: int| 0 <= i < j < r.len() implies #[trigger] antes(ls, f, r[i], r[j]) by {
                assert(r[i] == p[i]);
                if j < p.len() {
                    assert(r[j] == p[j]);
                    assert(antes(d, f, p[i], p[j]));
                    let k = choose|k: int| #[trigger] dado_na_linha(d, f, p[i], k) && forall|m: int| 0 <= m && m <= k ==> !#[trigger] dado_na_linha(d, f, p[j], m);
                    assert(dado_na_linha(ls, f, r[i], k));
                    assert forall|m: int| 0 <= m && m <= k implies !#[trigger] dado_na_linha(ls, f, r[j], m) by {
                        assert(!dado_na_linha(d, f, p[j], m));
                    }
                    assert(antes(ls, f, r[i], r[j]));
                } else {
                    assert(r[j] == a);
                    assert(p.contains(p[i]));
                    let k = choose|k: int| dado_na_linha(d, f, p[i], k);
                    assert(dado_na_linha(ls, f, r[i], k));
                    assert forall|m: int| 0 <= m && m <= k implies !#[trigger] dado_na_linha(ls, f, r[j], m) by {
                        if dado_na_linha(ls, f, r[j], m) {
                            assert(dado_na_linha(d, f, a, m));
                        }
                    }
                    assert(antes(ls, f, r[i], r[j]));
                }
            }
            assert(sem_repeticoes(r));
            assert(forall|x: Seq<char>| #[trigger] r.contains(x) <==> (x.len() > 0 && exists|k: int| #[trigger] dado_na_linha(ls, f, x, k)));
            assert(primeiras_ocorrencias(r, ls, f));
        } else {
            assert(r == p);
            assert forall|x: Seq<char>| #[trigger] r.contains(x) <==> (x.len() > 0 && exists|k: int| #[trigger] dado_na_linha(ls, f, x, k)) by {
                if r.contains(x) {
                    let k = choose|k: int| dado_na_linha(d, f, x, k);
                    assert(dado_na_linha(ls, f, x, k));
                }
                if x.len() > 0 && exists|k: int| #[trigger] dado_na_linha(ls, f, x, k) {
                    let k = choose|k: int| dado_na_linha(ls, f, x, k);
                    if k < n {
                        assert(dado_na_linha(d, f, x, k));
                    }
                }
            }
            assert forall|i: int, j: int| 0 <= i < j < r.len() implies #[trigger] antes(ls, f, r[i], r[j]) by {
                assert(r[i] == p[i] && r[j] == p[j]);
                assert(antes(d, f, p[i], p[j]));
                let k = choose|k: int| #[trigger] dado_na_linha(d, f, p[i], k) && forall|m: int| 0 <= m && m <= k ==> !#[trigger] dado_na_linha(d, f, p[j], m);
                assert(dado_na_linha(ls, f, r[i], k));
                assert forall|m: int| 0 <= m && m <= k implies !#[trigger] dado_na_linha(ls, f, r[j], m) by {
                    assert(!dado_na_linha(d, f, p[j], m));
                }
                assert(antes(ls, f, r[i], r[j]));
            }
        }
    }
}

proof fn lemma_scutil_acumula(ls: Seq<Seq<char>>)
    ensures
        dns_das_linhas_scutil(ls) == acumula_unicos(ls, |l: Seq<char>| dns_linha_scutil(l)),
    decreases ls.len(),
{
    if ls.len() > 0 {
        lemma_scutil_acumula(ls.drop_last());
    }
}

proof fn lemma_resolv_acumula(ls: Seq<Seq<char>>)
    ensures
        dns_das_linhas_resolv(ls) == acumula_unicos(ls, |l: Seq<char>| dns_linha_resolv(l)),
    decreases ls.len(),
{
    if ls.len() > 0 {
        lemma_resolv_acumula(ls.drop_last());
    }
}

/// The name servers read from `scutil --dns` (macOS) and from `/etc/resolv.conf` (Linux) hold
/// each non-empty address that a `nameserver` line gives, exactly once, in the order in which the
/// addresses first appear.
pub proof fn lei_servidores_dns_unicos(ls: Seq<Seq<char>>)
    ensures
        primeiras_ocorrencias(dns_das_linhas_scutil(ls), ls, |l: Seq<char>| dns_linha_scutil(l)),
        primeiras_ocorrencias(dns_das_linhas_resolv(ls), ls, |l: Seq<char>| dns_linha_resolv(l)),
{
    lemma_scutil_acumula(ls);
    lemma_resolv_acumula(ls);
    lemma_acumula_unicos(ls, |l: Seq<char>| dns_linha_scutil(l));
    lemma_acumula_unicos(ls, |l: Seq<char>| dns_linha_resolv(l));
}


/// A name-server address as `resolvectl dns` lists it: a word with a `.` and no `/`.
pub open spec fn endereco_resolvectl(p: Seq<char>) -> bool {
    contem(p, "."@) && !contem(p, "/"@)
}

proof fn lemma_com_unico(s: Seq<Seq<char>>, x: Seq<char>)
    requires
        sem_repeticoes(s),
    ensures
        sem_repeticoes(com_unico(s, x)),
        forall|e: Seq<char>| #[trigger] com_unico(s, x).contains(e) <==> (s.contains(e) || e == x),
{
    if !s.contains(x) {
        let r = s.push(x);
        assert forall|i: int, j: int| 0 <= i < j < r.len() implies #[trigger] r[i] != #[trigger] r[j] by {
            if j == s.len() {
                assert(s.contains(s[i]));
            } else {
                assert(r[i] == s[i] && r[j] == s[j]);
            }
        }
        assert forall|e: Seq<char>| #[trigger] r.contains(e) <==> (s.contains(e) || e == x) by {
            if r.contains(e) {
                let t = choose|t: int| 0 <= t < r.len() && r[t] == e;
                if t < s.len() {
                    assert(r[t] == s[t]);
                }
            }
            if s.contains(e) {
                let t = choose|t: int| 0 <= t < s.len() && s[t] == e;
                assert(r[t] == e);
            }
            if e == x {
                assert(r[s.len() as int] == x);
            }
        }
    }
}

proof fn lemma_acrescenta_enderecos(acc: Seq<Seq<char>>, ws: Seq<Seq<char>>)
    requires
        sem_repeticoes(acc),
        forall|e: Seq<char>| #[trigger] acc.contains(e) ==> endereco_resolvectl(e),
    ensures
        sem_repeticoes(acrescenta_enderecos(acc, ws)),
        forall|e: Seq<char>| #[trigger] acrescenta_enderecos(acc, ws).contains(e) ==> endereco_resolvectl(e),
    decreases ws.len(),
{
    if ws.len() > 0 {
        lemma_acrescenta_enderecos(acc, ws.drop_last());
        let a = acrescenta_enderecos(acc, ws.drop_last());
        if endereco_resolvectl(ws.last()) {
            lemma_com_unico(a, ws.last());
        }
    }
}

/// The name servers read from `resolvectl dns` (Linux) appear once each, and each is a word that
/// holds a `.` and no `/`.
pub proof fn lei_servidores_resolvectl(ls: Seq<Seq<char>>)
    ensures
        sem_repeticoes(dns_das_linhas_resolvectl(ls)),
        forall|e: Seq<char>| #[trigger] dns_das_linhas_resolvectl(ls).contains(e) ==> endereco_resolvectl(e),
    decreases ls.len(),
{
    if ls.len() > 0 {
        lei_servidores_resolvectl(ls.drop_last());
        lemma_acrescenta_enderecos(dns_das_linhas_resolvectl(ls.drop_last()), palavras(ls.last()));
    }
}

} // verus!
